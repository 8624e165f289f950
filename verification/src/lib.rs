//! ACE primitives: reduced-precision floating-point codecs, integer dot products, and the tile /
//! block-scale register model.
pub mod rounding;
pub mod fp8;
pub mod fp32;
pub mod fp4;
pub mod bsr;
pub mod tile;
pub mod tile_move;
pub mod tcvtrow;
pub mod detect;
pub mod dot;

pub use crate::dot::dpbssd_scalar;
