use vstd::prelude::*;

pub mod cost;
pub mod text;
pub mod chunk;
pub mod fx;
pub mod layout;
pub mod usage;
pub mod trie;
pub mod order;
pub mod dict;
pub mod encoder;

verus! {

} // verus!
