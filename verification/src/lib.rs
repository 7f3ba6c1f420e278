//! Incremental accumulators for an efficiently updatable neural network.

pub mod accumulator;
pub mod attacks;
pub mod behaviour;
pub mod board;
mod buffers;
pub mod capacity;
pub mod features;
pub mod geometry;
mod indexes;
pub mod laws;
pub mod layout;
pub mod simd;
pub mod squares;
pub mod sums;
mod totals;
