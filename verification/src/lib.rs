//! Extraction of readable strings from binary data, and the chain of filters
//! that narrows them down: length bounds, whitespace density, language
//! confidence, implausible letter pairs and near-duplicate suppression.
//!
//! A string is held as the bytes of its UTF-8 encoding (`Vec<u8>`, viewed as
//! `Seq<u8>`), and lengths are counted in bytes.

pub mod bigrams;
pub mod dedup;

pub mod density;
pub mod language;
pub mod order;
pub mod pipeline;
pub mod scanner;
pub mod score;
pub mod string_set;
pub mod text;
