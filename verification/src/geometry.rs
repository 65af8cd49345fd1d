//! Polygons and meshes.

pub mod segment_tree;
pub mod polygon_selector;
pub mod monotone;
pub mod triangulation;
pub mod render_object;
pub mod mesh;
pub mod gentraits;
