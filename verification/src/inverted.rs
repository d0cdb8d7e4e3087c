//! Choosing which indexes a build produces.
//!
//! Small content gets the suffix array alone: it is simple and answers every
//! kind of query. Large content queried by exact words only gets the
//! inverted index alone. Large content that needs prefix or fuzzy matching
//! gets both.

use vstd::prelude::*;

use crate::types::IndexMode;

verus! {

/// Threshold configuration for index mode selection.
#[derive(Debug, Clone)]
pub struct IndexThresholds {
    /// Up to this doc count, use the suffix array only
    pub suffix_only_max_docs: usize,
    /// Up to this total text size (bytes), use the suffix array only
    pub suffix_only_max_bytes: usize,
    /// From this doc count on, use the inverted index (alone for exact-only
    /// content, beside the suffix array otherwise)
    pub inverted_only_min_docs: usize,
}

impl Default for IndexThresholds {
    fn default() -> (r: Self)
        ensures
            r.suffix_only_max_docs == 50,
            r.suffix_only_max_bytes == 100_000,
            r.inverted_only_min_docs == 500,
    {
        IndexThresholds { suffix_only_max_docs: 50, suffix_only_max_bytes: 100_000, inverted_only_min_docs: 500 }
    }
}

/// The index mode that content of this size and these needs gets.
pub open spec fn index_mode_for(
    doc_count: nat,
    total_text_bytes: nat,
    needs_prefix_matching: bool,
    needs_fuzzy_matching: bool,
    t: IndexThresholds,
) -> IndexMode {
    if doc_count <= t.suffix_only_max_docs && total_text_bytes <= t.suffix_only_max_bytes {
        IndexMode::SuffixArrayOnly
    } else if needs_prefix_matching || needs_fuzzy_matching {
        if doc_count >= t.inverted_only_min_docs {
            IndexMode::Hybrid
        } else {
            IndexMode::SuffixArrayOnly
        }
    } else if doc_count >= t.inverted_only_min_docs {
        IndexMode::InvertedIndexOnly
    } else {
        IndexMode::SuffixArrayOnly
    }
}

/// Determine the best index mode based on content characteristics.
pub fn select_index_mode(
    doc_count: usize,
    total_text_bytes: usize,
    needs_prefix_matching: bool,
    needs_fuzzy_matching: bool,
    thresholds: &IndexThresholds,
) -> (r: IndexMode)
    ensures
        r == index_mode_for(
            doc_count as nat,
            total_text_bytes as nat,
            needs_prefix_matching,
            needs_fuzzy_matching,
            *thresholds,
        ),
{
    if doc_count <= thresholds.suffix_only_max_docs && total_text_bytes <= thresholds.suffix_only_max_bytes {
        return IndexMode::SuffixArrayOnly;
    }
    if needs_prefix_matching || needs_fuzzy_matching {
        if doc_count >= thresholds.inverted_only_min_docs {
            return IndexMode::Hybrid;
        }
        return IndexMode::SuffixArrayOnly;
    }
    if doc_count >= thresholds.inverted_only_min_docs {
        return IndexMode::InvertedIndexOnly;
    }
    IndexMode::SuffixArrayOnly
}

/// Content that needs prefix or fuzzy matching always keeps the suffix
/// array, and content that needs neither never gets both indexes.
pub proof fn lemma_index_mode_serves_needs(
    doc_count: nat,
    total_text_bytes: nat,
    needs_prefix_matching: bool,
    needs_fuzzy_matching: bool,
    t: IndexThresholds,
)
    ensures
        (needs_prefix_matching || needs_fuzzy_matching) ==> index_mode_for(
            doc_count,
            total_text_bytes,
            needs_prefix_matching,
            needs_fuzzy_matching,
            t,
        ) != IndexMode::InvertedIndexOnly,
        !(needs_prefix_matching || needs_fuzzy_matching) ==> index_mode_for(
            doc_count,
            total_text_bytes,
            needs_prefix_matching,
            needs_fuzzy_matching,
            t,
        ) != IndexMode::Hybrid,
{
}

} // verus!
