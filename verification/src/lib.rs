//! Hex Casting core: hex-grid math, iotas, spell lists, the casting VM and
//! the casting-grid session logic.

pub mod math;
pub mod text;
pub mod casting;
pub mod iota;
pub mod grid;
