//! An in-memory sorting engine for step-by-step visualisation.
//!
//! The crate holds a sequence of integers and offers classic sorting
//! algorithms over it, both as one-shot runs and as single steps that a
//! caller can interleave with rendering.

pub mod order;
pub mod shuffle;
pub mod sorting;
pub mod visualizer;

pub use visualizer::SortingVisualizer;
