//! The grid-aligned bigram-Viterbi segmentation engine: TCC grid, dictionary candidates,
//! the task-agnostic `viterbi`, OOV coalescing and the branching-entropy merge, and the
//! packed token format.
use vstd::prelude::*;

pub mod grid;
pub mod layer;
pub mod tokens;
pub mod dictionary;
pub mod spans;
pub mod decode;
pub mod engine;
pub mod context;
