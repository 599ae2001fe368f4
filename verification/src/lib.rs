//! A byte-addressable memory over 64-bit cells in which every stored bit is
//! either a known boolean or unknown. Reads and writes of arbitrary width and
//! alignment are decomposed into cell operations and stitched together with
//! shift/mask/concatenate steps, preserving little-endian byte order.
//!
//! The crate also offers demangling helpers for C++ and Rust symbol names.

pub mod bits;
pub mod demangling;
pub mod laws;
pub mod memory;
pub mod value;
