//! Core of a hex-tile playfield: exact cube/axial/offset coordinate math with
//! line drawing between cells, and a small reactive property registry that
//! materializes named properties on demand and propagates batched updates.

pub mod hex;
pub mod property;
