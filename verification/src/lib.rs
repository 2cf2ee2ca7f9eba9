//! Tile-based texture synthesis by constraint propagation.
//!
//! A sample grid of pixels is cut into square tiles; the tiles that occur and
//! how often each pair of them touches in each direction are recorded; and an
//! output grid is then filled, one cell at a time, so that neighbouring cells
//! hold tiles that touched in the sample.  All weights are fixed-point
//! integers, so every step is an exact function of its inputs.

pub mod pixel;
pub mod direction;
pub mod weight;
pub mod rng;
pub mod catalog;
pub mod sample;
pub mod adjacency;
pub mod grid;
pub mod belief;
pub mod choice;
pub mod collapser;
pub mod propagate;
pub mod collapse;
pub mod scheduler;
pub mod consistency;
