//! Result ranking: how search results are ordered.
//!
//! Results are bucketed by match type, not by raw score: a title match
//! outranks a content match whatever their scores. Within a bucket the
//! higher score comes first, then the title in byte order, then the
//! document id, so that no two distinct documents ever tie.
//!
//! Scores are floating-point numbers and stay with the caller; what
//! `partial_cmp` says of two of them is handed in as an argument.

use std::cmp::Ordering;
use vstd::prelude::*;
use vstd::utf8::encode_utf8;

use crate::text::{compare_bytes, lemma_lex_irreflexive, lemma_lex_total, lemma_lex_trans, lex_lt, Comparison};
use crate::types::{MatchType, SearchDoc};

verus! {

/// A search hit. Its score, a float, is kept by the caller beside it.
#[derive(Debug, Clone)]
pub struct SearchResult {
    /// Document the hit is in
    pub doc_id: usize,
    /// Section table index (0 = no section, 1+ = table index + 1)
    pub section_idx: u32,
    /// Search tier that produced the hit (1 exact, 2 prefix, 3 fuzzy)
    pub tier: u8,
    /// Bucket the hit falls in
    pub match_type: MatchType,
    /// Vocabulary index of the matched term, where one is known
    pub matched_term: Option<u32>,
}

/// The bytes of a document's title, or none for an id past the end.
pub open spec fn title_bytes(docs: Seq<SearchDoc>, id: usize) -> Seq<u8> {
    if id < docs.len() {
        encode_utf8(docs[id as int].title@)
    } else {
        Seq::empty()
    }
}

/// The ordering read the other way round.
pub open spec fn flip(o: Ordering) -> Ordering {
    match o {
        Ordering::Less => Ordering::Greater,
        Ordering::Equal => Ordering::Equal,
        Ordering::Greater => Ordering::Less,
    }
}

/// An optional ordering read the other way round.
pub open spec fn flip_option(o: Option<Ordering>) -> Option<Ordering> {
    match o {
        Some(x) => Some(flip(x)),
        None => None,
    }
}

/// Where `a` ranks against `b` (`Less`: `a` first). `score_order` is what
/// `partial_cmp` gives on b's score against a's, so that a higher score
/// comes first; `None` (incomparable) and `Equal` leave the decision to the
/// title.
pub open spec fn results_order(a: SearchResult, b: SearchResult, score_order: Option<Ordering>, docs: Seq<SearchDoc>) -> Ordering {
    if a.match_type.rank() < b.match_type.rank() {
        Ordering::Less
    } else if b.match_type.rank() < a.match_type.rank() {
        Ordering::Greater
    } else if score_order == Some(Ordering::Less) {
        Ordering::Less
    } else if score_order == Some(Ordering::Greater) {
        Ordering::Greater
    } else if lex_lt(title_bytes(docs, a.doc_id), title_bytes(docs, b.doc_id)) {
        Ordering::Less
    } else if lex_lt(title_bytes(docs, b.doc_id), title_bytes(docs, a.doc_id)) {
        Ordering::Greater
    } else if a.doc_id < b.doc_id {
        Ordering::Less
    } else if b.doc_id < a.doc_id {
        Ordering::Greater
    } else {
        Ordering::Equal
    }
}

/// The bytes of a document's title, or an empty slice for an id past the end.
fn doc_title_bytes(docs: &[SearchDoc], id: usize) -> (r: &[u8])
    ensures
        r@ == title_bytes(docs@, id),
{
    if id < docs.len() {
        docs[id].title.as_str().as_bytes()
    } else {
        let empty = "";
        proof {
            reveal_strlit("");
            assert(encode_utf8(empty@) =~= Seq::<u8>::empty());
        }
        empty.as_bytes()
    }
}

/// Compare two search results for ranking: match type first (better
/// bucket first), then score (higher first, as `score_order` reports it:
/// b's score against a's), then title, then document id.
pub fn compare_results(a: &SearchResult, b: &SearchResult, score_order: Option<Ordering>, docs: &[SearchDoc]) -> (r: Ordering)
    ensures
        r == results_order(*a, *b, score_order, docs@),
{
    let ra = a.match_type.to_u8();
    let rb = b.match_type.to_u8();
    if ra < rb {
        return Ordering::Less;
    }
    if rb < ra {
        return Ordering::Greater;
    }
    match score_order {
        Some(Ordering::Less) => {
            return Ordering::Less;
        },
        Some(Ordering::Greater) => {
            return Ordering::Greater;
        },
        _ => {},
    }
    let a_title = doc_title_bytes(docs, a.doc_id);
    let b_title = doc_title_bytes(docs, b.doc_id);
    match compare_bytes(a_title, b_title) {
        Comparison::Less => Ordering::Less,
        Comparison::Greater => Ordering::Greater,
        Comparison::Equal => {
            proof {
                lemma_lex_irreflexive(a_title@);
            }
            if a.doc_id < b.doc_id {
                Ordering::Less
            } else if b.doc_id < a.doc_id {
                Ordering::Greater
            } else {
                Ordering::Equal
            }
        },
    }
}

/// Buckets are impermeable: a result in a better bucket ranks first,
/// whatever the scores, titles and ids.
pub proof fn lemma_bucket_dominates(a: SearchResult, b: SearchResult, score_order: Option<Ordering>, docs: Seq<SearchDoc>)
    requires
        a.match_type.rank() < b.match_type.rank(),
    ensures
        results_order(a, b, score_order, docs) == Ordering::Less,
        results_order(b, a, flip_option(score_order), docs) == Ordering::Greater,
{
}

/// Comparing the other way round gives the opposite answer, when the
/// scores are compared the other way round too.
pub proof fn lemma_results_order_antisymmetric(a: SearchResult, b: SearchResult, score_order: Option<Ordering>, docs: Seq<SearchDoc>)
    ensures
        results_order(b, a, flip_option(score_order), docs) == flip(results_order(a, b, score_order, docs)),
{
    let ta = title_bytes(docs, a.doc_id);
    let tb = title_bytes(docs, b.doc_id);
    if lex_lt(ta, tb) && lex_lt(tb, ta) {
        lemma_lex_trans(ta, tb, ta);
        lemma_lex_irreflexive(ta);
    }
}

/// Two results tie only when they are in the same document: the id breaks
/// every other tie.
pub proof fn lemma_results_tie_same_doc(a: SearchResult, b: SearchResult, score_order: Option<Ordering>, docs: Seq<SearchDoc>)
    requires
        results_order(a, b, score_order, docs) == Ordering::Equal,
    ensures
        a.doc_id == b.doc_id,
        a.match_type.rank() == b.match_type.rank(),
{
    lemma_lex_total(title_bytes(docs, a.doc_id), title_bytes(docs, b.doc_id));
}

} // verus!
