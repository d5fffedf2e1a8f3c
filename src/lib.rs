//! A succinct trie: a rank/select bit-vector, a LOUDS tree encoding on top of
//! it, and a labeled trie built from words through a mutable staging trie.
use vstd::prelude::*;

pub mod fid;
pub mod louds;
pub mod naive_trie;
pub mod trie;

pub use fid::Fid;
pub use louds::{Louds, LoudsIndex, LoudsNodeNum};
pub use trie::{Trie, TrieBuilder};


verus! {


} // verus!
