pub mod build_profiles;
pub mod geom;
pub mod handles;
pub mod orientations;
pub mod socket;
pub mod transformation;
pub mod vertical;
pub mod walls;

pub use handles::GeometryHandle;
pub use orientations::GeomOrientation;
pub use vertical::VerticalProfile;
pub use walls::WallProfile;
