//! A keyword extraction and replacement engine.
//!
//! A registry of keywords is kept in a character trie; a single left-to-right
//! pass over a text finds every whole-word occurrence of a registered keyword
//! (longest match first), optionally tolerating a bounded number of edits, and
//! either reports the matches or rewrites the text with their clean names.

pub mod boundary;
pub mod chars;
pub mod childmap;
pub mod enumerate;
pub mod errors;
pub mod fuzzy;
pub mod laws;
pub mod loader;
pub mod payload;
pub mod processor;
pub mod replace;
pub mod scan;
pub mod sentences;
pub mod text;
pub mod trie;
