pub mod assoc;
pub mod hashmap_ext;
pub mod menus;
pub mod simulation;
pub mod text;
pub mod tile_inspect;
pub mod tiling;
pub mod ui;
pub mod visuals;
