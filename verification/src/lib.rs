//! Thai text segmentation, normalization, tagging and spelling correction, verified with Verus.
use vstd::prelude::*;

pub mod text;
pub mod pos;
pub mod pos_decode;
pub mod tcc;
pub mod lattice;
pub mod spell;
pub mod fields;
pub mod table;
pub mod token_list;
pub mod lm_format;
pub mod normalize;

verus! {
} // verus!
