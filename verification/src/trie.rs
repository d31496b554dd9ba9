pub mod laws;
pub mod model;
pub mod render;
pub mod trie_node;
pub mod trie_structure;
