//! A prefix tree over characters: a set of words with insertion, exact
//! membership and a line-per-node text rendering.
pub mod trie;

pub use trie::trie_node::TrieNode;
pub use trie::trie_structure::Trie;
