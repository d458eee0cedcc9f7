//! A window layout engine: arranges rectangular windows inside a bounded
//! space and assigns each a target position and a uniform scale.
//!
//! Sizes and coordinates are integers; scales are fixed-point numbers in
//! thousandths (`SCALE_ONE` is a scale of 1).
pub mod geometry;
pub mod expose;
pub mod guillotine;
pub mod normalize;
pub mod shelf;

pub use expose::{assign_cells, expose, expose_step};
pub use geometry::{grid_side, isqrt, total_area, LayoutError, Window, SCALE_ONE};
pub use guillotine::{bin_pack2, PackReport};
pub use normalize::normalize;
pub use shelf::{bin_pack, Bin};
