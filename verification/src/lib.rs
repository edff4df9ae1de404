//! A compressed prefix tree (radix trie) mapping string keys to values,
//! with verified insertion, lookup, removal and prefix enumeration.

pub mod element;
pub mod laws;
mod lemmas;
pub mod trie;
pub mod util;

pub use element::Element;
pub use trie::RadixTrie;
