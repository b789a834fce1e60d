//! Anagrams of a phrase, found over a dictionary and told by the digest of
//! their text.
//!
//! `dictionary` makes the word list of a search from the lines of a text,
//! `word` builds the trie of a word list, and `anagram` searches the trie for
//! the sequences of words that use up the letters of the phrase. `trie` and
//! `search` hold what the contracts speak of: the tree that a trie stands for
//! and what a search finds, with the laws that hold of them. `text` holds the
//! character classes and the handling of strings, `digest` the MD5 digest.

pub mod anagram;
pub mod dictionary;
pub mod digest;
pub mod search;
pub mod text;
pub mod trie;
pub mod word;
