//! Narrowing a vocabulary of fixed-length words by letter feedback.
//!
//! A [`trie::Trie`] stores the vocabulary. Three kinds of knowledge about the
//! hidden word narrow it: letters pinned to a position, letters known to be in
//! the word but not at a position, and letters known to be absent. The
//! functions of [`util`] turn pattern strings into those constraints,
//! [`pruning`] says which words they keep, and [`trie::Trie::pruned_copy`]
//! builds the tree of those words. A [`dictionary::Dictionary`] holds the
//! vocabulary from round to round, and [`session`] runs the rounds.
pub mod text;
pub mod letters;
pub mod util;
pub mod pruning;
pub mod trie;
pub mod dictionary;
pub mod session;
