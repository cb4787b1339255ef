//! Search request descriptions.
//!
//! Plain value types a host hands to its search layer: which fields a query
//! string applies to by default, which fields match fuzzily and how, and
//! how many of the top documents to return from which offset. The tokenizer
//! core neither builds nor interprets them; they travel through unchanged.

use vstd::prelude::*;

verus! {

/// One search request: the query string, the fields it applies to when it
/// names none itself, per-field fuzziness, and paging over the top results.
#[derive(Debug, Clone)]
pub struct TantivySearchQuery {
    pub query_str: String,
    pub default_fields: Vec<String>,
    pub fuzzy_fields: Vec<TantivyFuzzyField>,
    pub top_doc_limit: u32,
    pub top_doc_offset: u32,
}

/// Fuzzy matching for one field: whether the query term matches as a
/// prefix, the edit distance allowed, and whether a transposition counts
/// as a single edit.
#[derive(Debug, Clone)]
pub struct TantivyFuzzyField {
    pub field_name: String,
    pub prefix: bool,
    pub distance: u8,
    pub transpose_cost_one: bool,
}

} // verus!
