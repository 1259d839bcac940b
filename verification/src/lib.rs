//! Simulation engine for two-dimensional totalistic cellular automata with
//! large, multi-layer neighborhoods (Conway's Life, Larger-than-Life, MNCA).
//!
//! The engine advances a rectangular grid of boolean cells one step per
//! iteration under a pluggable transition rule (a *kernel*).  The grid stores
//! its world as square blocks of cells; a kernel consumes a 2x2 assembly of
//! blocks and produces the successor of the central block.  A memoizing
//! wrapper caches kernel outputs keyed by the identities of the four input
//! blocks.

pub mod array2d;
pub mod cache;
pub mod kernels;
pub mod sim;
