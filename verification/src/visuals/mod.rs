pub mod collapse;
pub mod collapse_state;
pub mod geom;
