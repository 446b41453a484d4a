//! Romaji input as kana.

pub mod convert;
pub mod laws;
pub mod rows;
pub mod table;
pub mod trie;

pub use convert::{convert_romaji, RomajiConvertResult};
pub use trie::{RomajiTrie, TrieLookupResult};
