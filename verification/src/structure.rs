pub mod binary_tree;
pub mod double_array_trie;
pub mod priority_queue;
