pub mod patterns;
pub mod suggest;
pub mod trie;
pub mod utils;
pub mod words;
