use vstd::prelude::*;

pub mod bitmap;
pub mod gc;
pub mod list;
pub mod map;
pub mod trie;

verus! {

} // verus!
