//! Layers of render objects, and the engine that files them by label.

pub mod layer;
pub mod engine;
