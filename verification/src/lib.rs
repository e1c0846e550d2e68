//! Verified parts of a morphological analyzer for Japanese: the search in the trie of a
//! dictionary, the strings of a dictionary, and the normalization of the input text.
pub mod checker;
pub mod default_input_text;
pub mod error;
pub mod input_text;
pub mod rewrite;
pub mod rewrite_laws;
pub mod rewrite_lists;
pub mod rewrite_lists_laws;
pub mod text;
pub mod trie;
pub mod trie_laws;
pub mod trivial_chars;
pub mod u16str;
pub mod u16str_laws;
pub mod unicode;
