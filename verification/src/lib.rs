//! Layered 2D scene bookkeeping and the combinatorial core of polygon
//! triangulation: the sweep that cuts a polygon into pieces monotone in y
//! (with its ordered tree of edges), the selector that walks the pieces the
//! diagonals cut out, the stack walk that triangulates each piece, and mesh
//! assembly.  The geometry (what lies above, left of, inside) comes from
//! the caller as plain answers.

pub mod geometry;
pub mod graphics2d;
pub mod app_setup;
