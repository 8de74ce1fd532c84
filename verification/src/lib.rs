//! A verified radix-256 trie map with lattice algebra over whole subtries.
use vstd::prelude::*;

pub mod utils;
pub mod ring;
pub mod trie;
pub mod trie_ops;
pub mod pathmap;
pub mod zipper;
pub mod zipper_algebra;
pub mod zipper_moving;
pub mod restrict_zipper;
pub mod subtract_zipper;
pub mod overlay_zipper;
pub mod prefix_zipper;
pub mod merkleization;
pub mod trie_ref;
pub mod laws;
pub mod paths_serialization;
pub mod counters;

verus! {

} // verus!
