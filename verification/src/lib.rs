//! A Unicode word tokenizer for full-text search indexing.
//!
//! The tokenizer turns a Unicode text into a sequence of normalized tokens,
//! each carrying a byte-offset span into the original text and a position
//! index. It runs four stages over the input: word segmentation along
//! standard Unicode word boundaries, intra-word splitting on punctuation
//! with elision of apostrophes between letters, merging of tokens bridged
//! by apostrophe runs, and emission of one extra compound token for every
//! maximal run of tokens bridged by dashes.

pub mod classes;
pub mod expand;
pub mod merge;
pub mod offsets;
pub mod query;
pub mod segment;
pub mod split;
pub mod token;
pub mod tokenizer;

pub use crate::query::TantivyFuzzyField;
pub use crate::query::TantivySearchQuery;
pub use crate::token::Token;
pub use crate::tokenizer::tokenize;
pub use crate::tokenizer::UnicodeTokenStream;
pub use crate::tokenizer::UnicodeTokenizer;
