//! Document-level search: the hits of one query part in the text suffix
//! array, the documents that every part matches, and the same over the
//! inverted index and the three tiers of the vocabulary index (exact
//! word, substring, and edit distance).
//!
//! Parts are given already split (and normalized) by the caller. A part
//! with no hit is left out of the intersection, as the ranking does;
//! scores, which are floating point, are computed by the caller from the
//! hits.

use vstd::prelude::*;
use vstd::utf8::encode_utf8;

use crate::contracts::{spec_sorted, spec_suffix, suffix_bytes};
use crate::fst_index::{FstIndex, InvertedIndex, Posting, PostingList};
use crate::levenshtein::edit_distance;
use crate::hybrid::{
    bytes_start_with, find_fuzzy_matches, find_substring_matches, fuzzy_terms, lemma_fuzzy_terms_members,
    lemma_past_prefix_run,
    lemma_prefix_not_below, matching_terms, starts_with, suffix_array_ordered,
};
use crate::scoring::{get_field_type_from_boundaries, spec_field_type};
use crate::text::{compare_bytes, lemma_lex_total, lemma_lex_trans, lex_lt, Comparison};
use crate::types::{FieldBoundary, FieldType, IndexMode, SearchDoc, SearchIndex, SuffixEntry};

verus! {

// ============================================================================
// DOCUMENT LISTS
// ============================================================================

/// The documents of `s`, each once, in order of first appearance.
pub open spec fn unique_docs(s: Seq<usize>) -> Seq<usize>
    decreases s.len(),
{
    if s.len() == 0 {
        Seq::empty()
    } else {
        let p = unique_docs(s.drop_last());
        if p.contains(s.last()) {
            p
        } else {
            p.push(s.last())
        }
    }
}

/// Every list holds `d`.
pub open spec fn in_all(lists: Seq<Seq<usize>>, d: usize) -> bool {
    forall|i: int| 0 <= i < lists.len() ==> (#[trigger] lists[i]).contains(d)
}

/// The documents of `s` that every list holds, in order.
pub open spec fn keep_in_all(s: Seq<usize>, lists: Seq<Seq<usize>>) -> Seq<usize>
    decreases s.len(),
{
    if s.len() == 0 {
        Seq::empty()
    } else {
        let p = keep_in_all(s.drop_last(), lists);
        if in_all(lists, s.last()) {
            p.push(s.last())
        } else {
            p
        }
    }
}

/// The documents every list holds, each once, in the order of the first
/// list; none when there are no lists.
pub open spec fn common_docs(lists: Seq<Seq<usize>>) -> Seq<usize> {
    if lists.len() == 0 {
        Seq::empty()
    } else {
        keep_in_all(unique_docs(lists[0]), lists)
    }
}

/// The documents of `s` that `ex` does not hold, in order.
pub open spec fn without(s: Seq<usize>, ex: Seq<usize>) -> Seq<usize>
    decreases s.len(),
{
    if s.len() == 0 {
        Seq::empty()
    } else {
        let p = without(s.drop_last(), ex);
        if ex.contains(s.last()) {
            p
        } else {
            p.push(s.last())
        }
    }
}

/// The lists that are not empty, in order.
pub open spec fn nonempty_lists(lists: Seq<Seq<usize>>) -> Seq<Seq<usize>>
    decreases lists.len(),
{
    if lists.len() == 0 {
        Seq::empty()
    } else {
        let p = nonempty_lists(lists.drop_last());
        if lists.last().len() > 0 {
            p.push(lists.last())
        } else {
            p
        }
    }
}

/// The lists of a vector of vectors.
pub open spec fn lists_view(v: Seq<Vec<usize>>) -> Seq<Seq<usize>> {
    v.map_values(|l: Vec<usize>| l@)
}

/// `unique_docs` holds the documents of `s`, each once.
pub proof fn lemma_unique_docs(s: Seq<usize>)
    ensures
        forall|d: usize| #[trigger] unique_docs(s).contains(d) <==> s.contains(d),
        forall|a: int, b: int| 0 <= a < b < unique_docs(s).len() ==> unique_docs(s)[a] != unique_docs(s)[b],
    decreases s.len(),
{
    if s.len() > 0 {
        let init = s.drop_last();
        lemma_unique_docs(init);
        let p = unique_docs(init);
        assert forall|d: usize| #[trigger] unique_docs(s).contains(d) <==> s.contains(d) by {
            if s.contains(d) {
                let k = choose|k: int| 0 <= k < s.len() && s[k] == d;
                if k < init.len() {
                    assert(init[k] == d);
                    assert(init.contains(d));
                    assert(p.contains(d));
                    let j = choose|j: int| 0 <= j < p.len() && p[j] == d;
                    if !p.contains(s.last()) {
                        assert(unique_docs(s)[j] == d);
                    }
                } else if !p.contains(s.last()) {
                    assert(unique_docs(s)[p.len() as int] == d);
                }
            }
            if unique_docs(s).contains(d) {
                let j = choose|j: int| 0 <= j < unique_docs(s).len() && unique_docs(s)[j] == d;
                if j < p.len() {
                    assert(p[j] == d);
                    assert(p.contains(d));
                    let k = choose|k: int| 0 <= k < init.len() && init[k] == d;
                    assert(s[k] == d);
                } else {
                    assert(s[s.len() - 1] == d);
                }
            }
        }
    }
}

/// `keep_in_all` keeps exactly the documents of `s` every list holds, in
/// order, and repeats none that `s` does not repeat.
pub proof fn lemma_keep_in_all(s: Seq<usize>, lists: Seq<Seq<usize>>)
    ensures
        forall|d: usize| #[trigger] keep_in_all(s, lists).contains(d) <==> s.contains(d) && in_all(lists, d),
        (forall|a: int, b: int| 0 <= a < b < s.len() ==> s[a] != s[b]) ==> (forall|a: int, b: int|
            0 <= a < b < keep_in_all(s, lists).len() ==> keep_in_all(s, lists)[a] != keep_in_all(s, lists)[b]),
    decreases s.len(),
{
    if s.len() > 0 {
        let init = s.drop_last();
        lemma_keep_in_all(init, lists);
        let p = keep_in_all(init, lists);
        assert forall|d: usize| #[trigger] keep_in_all(s, lists).contains(d) <==> s.contains(d) && in_all(lists, d) by {
            if s.contains(d) && in_all(lists, d) {
                let k = choose|k: int| 0 <= k < s.len() && s[k] == d;
                if k < init.len() {
                    assert(init[k] == d);
                    assert(init.contains(d));
                    assert(p.contains(d));
                    let j = choose|j: int| 0 <= j < p.len() && p[j] == d;
                    if in_all(lists, s.last()) {
                        assert(keep_in_all(s, lists)[j] == d);
                    }
                } else {
                    assert(keep_in_all(s, lists)[p.len() as int] == d);
                }
            }
            if keep_in_all(s, lists).contains(d) {
                let j = choose|j: int| 0 <= j < keep_in_all(s, lists).len() && keep_in_all(s, lists)[j] == d;
                if j < p.len() {
                    assert(p[j] == d);
                    assert(p.contains(d));
                    let k = choose|k: int| 0 <= k < init.len() && init[k] == d;
                    assert(s[k] == d);
                } else {
                    assert(s[s.len() - 1] == d);
                }
            }
        }
        if forall|a: int, b: int| 0 <= a < b < s.len() ==> s[a] != s[b] {
            assert forall|a: int, b: int| 0 <= a < b < init.len() implies init[a] != init[b] by {
                assert(init[a] == s[a] && init[b] == s[b]);
            }
            if in_all(lists, s.last()) {
                assert(!p.contains(s.last())) by {
                    if p.contains(s.last()) {
                        assert(init.contains(s.last()));
                        let k = choose|k: int| 0 <= k < init.len() && init[k] == s.last();
                        assert(s[k] == s[s.len() - 1]);
                    }
                }
                assert forall|a: int, b: int| 0 <= a < b < keep_in_all(s, lists).len() implies keep_in_all(s, lists)[a]
                    != keep_in_all(s, lists)[b] by {
                    if b == p.len() {
                        assert(keep_in_all(s, lists)[a] == p[a]);
                    }
                }
            }
        }
    }
}

/// The common documents are those every list holds, when there is a list;
/// each comes once.
pub proof fn lemma_common_docs(lists: Seq<Seq<usize>>)
    ensures
        forall|d: usize| #[trigger] common_docs(lists).contains(d) <==> lists.len() > 0 && in_all(lists, d),
        forall|a: int, b: int| 0 <= a < b < common_docs(lists).len() ==> common_docs(lists)[a] != common_docs(lists)[b],
{
    if lists.len() > 0 {
        lemma_unique_docs(lists[0]);
        lemma_keep_in_all(unique_docs(lists[0]), lists);
        assert forall|d: usize| #[trigger] common_docs(lists).contains(d) <==> lists.len() > 0 && in_all(lists, d) by {
            if in_all(lists, d) {
                assert(lists[0].contains(d));
                assert(unique_docs(lists[0]).contains(d));
            }
        }
    }
}

/// `without` keeps exactly the documents of `s` that `ex` does not hold.
pub proof fn lemma_without(s: Seq<usize>, ex: Seq<usize>)
    ensures
        forall|d: usize| #[trigger] without(s, ex).contains(d) <==> s.contains(d) && !ex.contains(d),
    decreases s.len(),
{
    if s.len() > 0 {
        let init = s.drop_last();
        lemma_without(init, ex);
        let p = without(init, ex);
        assert forall|d: usize| #[trigger] without(s, ex).contains(d) <==> s.contains(d) && !ex.contains(d) by {
            if s.contains(d) && !ex.contains(d) {
                let k = choose|k: int| 0 <= k < s.len() && s[k] == d;
                if k < init.len() {
                    assert(init[k] == d);
                    assert(init.contains(d));
                    assert(p.contains(d));
                    let j = choose|j: int| 0 <= j < p.len() && p[j] == d;
                    if !ex.contains(s.last()) {
                        assert(without(s, ex)[j] == d);
                    }
                } else {
                    assert(without(s, ex)[p.len() as int] == d);
                }
            }
            if without(s, ex).contains(d) {
                let j = choose|j: int| 0 <= j < without(s, ex).len() && without(s, ex)[j] == d;
                if j < p.len() {
                    assert(p[j] == d);
                    assert(p.contains(d));
                    let k = choose|k: int| 0 <= k < init.len() && init[k] == d;
                    assert(s[k] == d);
                } else {
                    assert(s[s.len() - 1] == d);
                }
            }
        }
    }
}

/// Whether `s` holds `d`.
fn holds_doc(s: &Vec<usize>, d: usize) -> (r: bool)
    ensures
        r == s@.contains(d),
{
    let mut i: usize = 0;
    while i < s.len()
        invariant
            i <= s@.len(),
            forall|k: int| 0 <= k < i ==> s@[k] != d,
        decreases s@.len() - i,
    {
        if s[i] == d {
            return true;
        }
        i = i + 1;
    }
    false
}

/// Whether `s` holds `d`.
fn slice_holds_doc(s: &[usize], d: usize) -> (r: bool)
    ensures
        r == s@.contains(d),
{
    let mut i: usize = 0;
    while i < s.len()
        invariant
            i <= s@.len(),
            forall|k: int| 0 <= k < i ==> s@[k] != d,
        decreases s@.len() - i,
    {
        if s[i] == d {
            return true;
        }
        i = i + 1;
    }
    false
}

/// Whether every list holds `d`.
fn held_by_all(hits: &Vec<Vec<usize>>, d: usize) -> (r: bool)
    ensures
        r == in_all(lists_view(hits@), d),
{
    let mut i: usize = 0;
    while i < hits.len()
        invariant
            i <= hits@.len(),
            forall|k: int| 0 <= k < i ==> (#[trigger] lists_view(hits@)[k]).contains(d),
        decreases hits@.len() - i,
    {
        if !holds_doc(&hits[i], d) {
            assert(lists_view(hits@)[i as int] == hits@[i as int]@);
            return false;
        }
        assert(lists_view(hits@)[i as int] == hits@[i as int]@);
        i = i + 1;
    }
    true
}

/// The documents of `s`, each once, in order of first appearance.
fn dedup_docs(s: &Vec<usize>) -> (r: Vec<usize>)
    ensures
        r@ == unique_docs(s@),
{
    let mut out: Vec<usize> = Vec::new();
    let mut i: usize = 0;
    assert(s@.take(0) =~= Seq::<usize>::empty());
    while i < s.len()
        invariant
            i <= s@.len(),
            out@ == unique_docs(s@.take(i as int)),
        decreases s@.len() - i,
    {
        assert(s@.take(i + 1).drop_last() =~= s@.take(i as int));
        if !holds_doc(&out, s[i]) {
            out.push(s[i]);
        }
        i = i + 1;
    }
    assert(s@.take(i as int) =~= s@);
    out
}

/// The documents that every list of hits holds, each once, in the order of
/// the first list; none when there are no lists.
pub fn docs_matching_all(hits: &Vec<Vec<usize>>) -> (r: Vec<usize>)
    ensures
        r@ == common_docs(lists_view(hits@)),
{
    if hits.len() == 0 {
        return Vec::new();
    }
    let first = dedup_docs(&hits[0]);
    assert(lists_view(hits@)[0] == hits@[0]@);
    let mut out: Vec<usize> = Vec::new();
    let mut i: usize = 0;
    assert(first@.take(0) =~= Seq::<usize>::empty());
    while i < first.len()
        invariant
            i <= first@.len(),
            out@ == keep_in_all(first@.take(i as int), lists_view(hits@)),
        decreases first@.len() - i,
    {
        assert(first@.take(i + 1).drop_last() =~= first@.take(i as int));
        if held_by_all(hits, first[i]) {
            out.push(first[i]);
        }
        i = i + 1;
    }
    assert(first@.take(i as int) =~= first@);
    out
}

/// The documents of `hits` that `exclude` does not hold, in order.
pub fn exclude_docs(hits: &Vec<usize>, exclude: &[usize]) -> (r: Vec<usize>)
    ensures
        r@ == without(hits@, exclude@),
{
    let mut out: Vec<usize> = Vec::new();
    let mut i: usize = 0;
    assert(hits@.take(0) =~= Seq::<usize>::empty());
    while i < hits.len()
        invariant
            i <= hits@.len(),
            out@ == without(hits@.take(i as int), exclude@),
        decreases hits@.len() - i,
    {
        assert(hits@.take(i + 1).drop_last() =~= hits@.take(i as int));
        if !slice_holds_doc(exclude, hits[i]) {
            out.push(hits[i]);
        }
        i = i + 1;
    }
    assert(hits@.take(i as int) =~= hits@);
    out
}

fn copy_docs(s: &Vec<usize>) -> (r: Vec<usize>)
    ensures
        r@ == s@,
{
    let mut out: Vec<usize> = Vec::new();
    let mut i: usize = 0;
    while i < s.len()
        invariant
            i <= s@.len(),
            out@ == s@.take(i as int),
        decreases s@.len() - i,
    {
        out.push(s[i]);
        assert(s@.take(i + 1) =~= s@.take(i as int).push(s@[i as int]));
        i = i + 1;
    }
    assert(s@.take(i as int) =~= s@);
    out
}

/// The lists of hits that are not empty, in order.
fn drop_empty(hits: &Vec<Vec<usize>>) -> (r: Vec<Vec<usize>>)
    ensures
        lists_view(r@) == nonempty_lists(lists_view(hits@)),
{
    let ghost lv = lists_view(hits@);
    let mut out: Vec<Vec<usize>> = Vec::new();
    let mut i: usize = 0;
    assert(lv.take(0) =~= Seq::<Seq<usize>>::empty());
    assert(lists_view(out@) =~= Seq::<Seq<usize>>::empty());
    while i < hits.len()
        invariant
            i <= hits@.len(),
            lv == lists_view(hits@),
            lv.len() == hits@.len(),
            lists_view(out@) == nonempty_lists(lv.take(i as int)),
        decreases hits@.len() - i,
    {
        assert(lv.take(i + 1).drop_last() =~= lv.take(i as int));
        assert(lv.take(i + 1).last() == hits@[i as int]@);
        if hits[i].len() > 0 {
            let ghost before = out@;
            out.push(copy_docs(&hits[i]));
            assert(lists_view(out@) =~= lists_view(before).push(hits@[i as int]@));
        }
        i = i + 1;
    }
    assert(lv.take(i as int) =~= lv);
    out
}

// ============================================================================
// ONE PART IN THE TEXT SUFFIX ARRAY
// ============================================================================

/// The hits of part `p` among the suffix array entries, in suffix array
/// order: each entry whose suffix begins with `p`, as (document, offset,
/// field type).
pub open spec fn part_hits(texts: Seq<String>, sa: Seq<SuffixEntry>, b: Seq<FieldBoundary>, p: Seq<u8>) -> Seq<
    (usize, usize, FieldType),
>
    decreases sa.len(),
{
    if sa.len() == 0 {
        Seq::empty()
    } else {
        let prev = part_hits(texts, sa.drop_last(), b, p);
        let e = sa.last();
        if starts_with(spec_suffix(texts, e), p) {
            prev.push((e.doc_id, e.offset, spec_field_type(b, e.doc_id, e.offset)))
        } else {
            prev
        }
    }
}

/// The documents of hits, in order.
pub open spec fn hit_docs(h: Seq<(usize, usize, FieldType)>) -> Seq<usize> {
    h.map_values(|x: (usize, usize, FieldType)| x.0)
}

/// A sorted suffix array is in order between any two entries.
proof fn lemma_sorted_pairs(texts: Seq<String>, sa: Seq<SuffixEntry>, m: int)
    requires
        spec_sorted(texts, sa),
        0 <= m <= sa.len(),
    ensures
        forall|i: int, j: int|
            0 <= i < j < m ==> !lex_lt(spec_suffix(texts, #[trigger] sa[j]), spec_suffix(texts, #[trigger] sa[i])),
    decreases m,
{
    if m > 0 {
        lemma_sorted_pairs(texts, sa, m - 1);
        assert forall|i: int, j: int| 0 <= i < j < m implies !lex_lt(
            spec_suffix(texts, #[trigger] sa[j]),
            spec_suffix(texts, #[trigger] sa[i]),
        ) by {
            if j == m - 1 && i < j - 1 {
                let si = spec_suffix(texts, sa[i]);
                let sp = spec_suffix(texts, sa[j - 1]);
                let sj = spec_suffix(texts, sa[j]);
                assert(!lex_lt(sj, sp));
                assert(!lex_lt(sp, si));
                lemma_lex_total(sp, si);
                if lex_lt(sj, si) {
                    if lex_lt(si, sp) {
                        lemma_lex_trans(sj, si, sp);
                    }
                }
            }
        }
    }
}

proof fn lemma_part_hits_head(texts: Seq<String>, sa: Seq<SuffixEntry>, b: Seq<FieldBoundary>, p: Seq<u8>, k: int)
    requires
        0 <= k <= sa.len(),
        forall|j: int| 0 <= j < k ==> !starts_with(spec_suffix(texts, #[trigger] sa[j]), p),
    ensures
        part_hits(texts, sa.take(k), b, p) == Seq::<(usize, usize, FieldType)>::empty(),
    decreases k,
{
    if k > 0 {
        assert(sa.take(k).drop_last() =~= sa.take(k - 1));
        lemma_part_hits_head(texts, sa, b, p, k - 1);
    }
}

proof fn lemma_part_hits_tail(texts: Seq<String>, sa: Seq<SuffixEntry>, b: Seq<FieldBoundary>, p: Seq<u8>, k: int)
    requires
        0 <= k <= sa.len(),
        forall|j: int| k <= j < sa.len() ==> !starts_with(spec_suffix(texts, #[trigger] sa[j]), p),
    ensures
        part_hits(texts, sa, b, p) == part_hits(texts, sa.take(k), b, p),
    decreases sa.len() - k,
{
    if k < sa.len() {
        lemma_part_hits_tail(texts, sa, b, p, k + 1);
        assert(sa.take(k + 1).drop_last() =~= sa.take(k));
    } else {
        assert(sa.take(k) =~= sa);
    }
}

/// The hits of one query part: a binary search finds the first suffix not
/// below the part, and the run of suffixes that begin with it follows.
pub fn match_part(index: &SearchIndex, part: &str) -> (r: Vec<(usize, usize, FieldType)>)
    requires
        spec_sorted(index.texts@, index.suffix_array@),
    ensures
        r@ == part_hits(index.texts@, index.suffix_array@, index.field_boundaries@, encode_utf8(part@)),
{
    hits_in(&index.texts, &index.suffix_array, &index.field_boundaries, part)
}

fn hits_in(texts_v: &Vec<String>, sa_v: &Vec<SuffixEntry>, b_v: &Vec<FieldBoundary>, part: &str) -> (r: Vec<(usize, usize, FieldType)>)
    requires
        spec_sorted(texts_v@, sa_v@),
    ensures
        r@ == part_hits(texts_v@, sa_v@, b_v@, encode_utf8(part@)),
{
    let ghost texts = texts_v@;
    let ghost sa = sa_v@;
    let ghost b = b_v@;
    let q = part.as_bytes();
    let ghost qb = q@;
    proof {
        lemma_sorted_pairs(texts, sa, sa.len() as int);
    }
    let mut lo: usize = 0;
    let mut hi: usize = sa_v.len();
    while lo < hi
        invariant
            lo <= hi <= sa.len(),
            texts == texts_v@,
            sa == sa_v@,
            qb == q@,
            forall|i: int, j: int|
                0 <= i < j < sa.len() ==> !lex_lt(spec_suffix(texts, #[trigger] sa[j]), spec_suffix(texts, #[trigger] sa[i])),
            forall|k: int| 0 <= k < lo ==> lex_lt(spec_suffix(texts, #[trigger] sa[k]), qb),
            forall|k: int| hi <= k < sa.len() ==> !lex_lt(spec_suffix(texts, #[trigger] sa[k]), qb),
        decreases hi - lo,
    {
        let mid = lo + (hi - lo) / 2;
        let suffix = suffix_bytes(texts_v.as_slice(), &sa_v[mid]);
        let below = match compare_bytes(suffix, q) {
            Comparison::Less => true,
            _ => false,
        };
        let ghost sm = spec_suffix(texts, sa[mid as int]);
        if below {
            proof {
                assert forall|k: int| 0 <= k <= mid implies lex_lt(spec_suffix(texts, #[trigger] sa[k]), qb) by {
                    if k < mid {
                        let sk = spec_suffix(texts, sa[k]);
                        assert(!lex_lt(sm, sk));
                        lemma_lex_total(sk, sm);
                        if lex_lt(sk, sm) {
                            lemma_lex_trans(sk, sm, qb);
                        }
                    }
                }
            }
            lo = mid + 1;
        } else {
            proof {
                assert forall|k: int| mid <= k < sa.len() implies !lex_lt(spec_suffix(texts, #[trigger] sa[k]), qb) by {
                    if k > mid {
                        let sk = spec_suffix(texts, sa[k]);
                        assert(!lex_lt(sk, sm));
                        lemma_lex_total(sk, sm);
                        if lex_lt(sk, qb) && lex_lt(sm, sk) {
                            lemma_lex_trans(sm, sk, qb);
                        }
                    }
                }
            }
            hi = mid;
        }
    }
    proof {
        assert forall|j: int| 0 <= j < lo implies !starts_with(spec_suffix(texts, #[trigger] sa[j]), qb) by {
            if starts_with(spec_suffix(texts, sa[j]), qb) {
                lemma_prefix_not_below(spec_suffix(texts, sa[j]), qb);
            }
        }
        lemma_part_hits_head(texts, sa, b, qb, lo as int);
    }
    let mut out: Vec<(usize, usize, FieldType)> = Vec::new();
    let mut i: usize = lo;
    while i < sa_v.len()
        invariant
            lo <= i <= sa.len(),
            texts == texts_v@,
            sa == sa_v@,
            b == b_v@,
            qb == q@,
            forall|i: int, j: int|
                0 <= i < j < sa.len() ==> !lex_lt(spec_suffix(texts, #[trigger] sa[j]), spec_suffix(texts, #[trigger] sa[i])),
            forall|k: int| lo <= k < sa.len() ==> !lex_lt(spec_suffix(texts, #[trigger] sa[k]), qb),
            out@ == part_hits(texts, sa.take(i as int), b, qb),
        ensures
            lo <= i <= sa.len(),
            forall|k: int| i <= k < sa.len() ==> !starts_with(spec_suffix(texts, #[trigger] sa[k]), qb),
            out@ == part_hits(texts, sa.take(i as int), b, qb),
        decreases sa.len() - i,
    {
        let e = &sa_v[i];
        let suffix = suffix_bytes(texts_v.as_slice(), e);
        if !bytes_start_with(suffix, q) {
            proof {
                assert forall|k: int| i <= k < sa.len() implies !starts_with(spec_suffix(texts, #[trigger] sa[k]), qb) by {
                    if k > i {
                        lemma_past_prefix_run(spec_suffix(texts, sa[i as int]), qb, spec_suffix(texts, sa[k]));
                    }
                }
            }
            break;
        }
        assert(sa.take(i + 1).drop_last() =~= sa.take(i as int));
        assert(sa.take(i + 1).last() == *e);
        let field_type = get_field_type_from_boundaries(e.doc_id, e.offset, b_v.as_slice());
        out.push((e.doc_id, e.offset, field_type));
        i = i + 1;
    }
    proof {
        lemma_part_hits_tail(texts, sa, b, qb, i as int);
    }
    out
}

// ============================================================================
// QUERIES OVER THE TEXT SUFFIX ARRAY
// ============================================================================

/// For each part, the documents of its hits.
pub open spec fn part_doc_lists(texts: Seq<String>, sa: Seq<SuffixEntry>, b: Seq<FieldBoundary>, parts: Seq<String>) -> Seq<
    Seq<usize>,
> {
    Seq::new(parts.len(), |i: int| hit_docs(part_hits(texts, sa, b, encode_utf8(parts[i]@))))
}

/// The documents a query matches in the suffix array: those that every
/// part with a hit matches.
pub open spec fn spec_search_in(texts: Seq<String>, sa: Seq<SuffixEntry>, b: Seq<FieldBoundary>, parts: Seq<String>) -> Seq<
    usize,
> {
    common_docs(nonempty_lists(part_doc_lists(texts, sa, b, parts)))
}

fn docs_of_hits(h: &Vec<(usize, usize, FieldType)>) -> (r: Vec<usize>)
    ensures
        r@ == hit_docs(h@),
{
    let mut out: Vec<usize> = Vec::new();
    let mut i: usize = 0;
    while i < h.len()
        invariant
            i <= h@.len(),
            out@ == hit_docs(h@).take(i as int),
        decreases h@.len() - i,
    {
        out.push(h[i].0);
        assert(hit_docs(h@).take(i + 1) =~= hit_docs(h@).take(i as int).push(h@[i as int].0));
        i = i + 1;
    }
    assert(hit_docs(h@).take(i as int) =~= hit_docs(h@));
    out
}

/// Keep the nonempty lists and intersect them.
fn intersect_nonempty(lists: &Vec<Vec<usize>>) -> (r: Vec<usize>)
    ensures
        r@ == common_docs(nonempty_lists(lists_view(lists@))),
{
    let kept = drop_empty(lists);
    docs_matching_all(&kept)
}

fn search_in(texts: &Vec<String>, sa: &Vec<SuffixEntry>, b: &Vec<FieldBoundary>, parts: &Vec<String>) -> (r: Vec<usize>)
    requires
        spec_sorted(texts@, sa@),
    ensures
        r@ == spec_search_in(texts@, sa@, b@, parts@),
{
    let ghost want = part_doc_lists(texts@, sa@, b@, parts@);
    let mut lists: Vec<Vec<usize>> = Vec::new();
    let mut i: usize = 0;
    while i < parts.len()
        invariant
            i <= parts@.len(),
            spec_sorted(texts@, sa@),
            want == part_doc_lists(texts@, sa@, b@, parts@),
            lists_view(lists@) == want.take(i as int),
        decreases parts@.len() - i,
    {
        let hits = hits_in(texts, sa, b, parts[i].as_str());
        let docs = docs_of_hits(&hits);
        let ghost before = lists@;
        lists.push(docs);
        assert(lists_view(lists@) =~= lists_view(before).push(want[i as int]));
        assert(want.take(i + 1) =~= want.take(i as int).push(want[i as int]));
        i = i + 1;
    }
    assert(want.take(i as int) =~= want);
    intersect_nonempty(&lists)
}

/// Search the index for the documents a query matches: the query's parts
/// are looked up in the suffix array, and the documents that every part
/// with a hit matches are returned, each once, in the order of the first
/// such part's hits. Ranking them is left to the caller.
pub fn search(index: &SearchIndex, parts: &Vec<String>) -> (r: Vec<usize>)
    requires
        spec_sorted(index.texts@, index.suffix_array@),
    ensures
        r@ == spec_search_in(index.texts@, index.suffix_array@, index.field_boundaries@, parts@),
{
    search_in(&index.texts, &index.suffix_array, &index.field_boundaries, parts)
}

// ============================================================================
// QUERIES OVER THE INVERTED INDEX
// ============================================================================

/// The position of the first entry for term `t`, from `i` on.
pub open spec fn lookup_from(terms: Seq<(String, PostingList)>, t: Seq<char>, i: int) -> Option<int>
    decreases terms.len() - i,
{
    if i < 0 || i >= terms.len() {
        None
    } else if terms[i].0@ == t {
        Some(i)
    } else {
        lookup_from(terms, t, i + 1)
    }
}

/// A term found is found where the term stands.
proof fn lemma_lookup_from(terms: Seq<(String, PostingList)>, t: Seq<char>, i: int)
    ensures
        lookup_from(terms, t, i) matches Some(k) ==> 0 <= i <= k < terms.len() && terms[k].0@ == t,
    decreases terms.len() - i,
{
    if 0 <= i < terms.len() && terms[i].0@ != t {
        lemma_lookup_from(terms, t, i + 1);
    }
}

/// The documents of a list of postings, in order.
pub open spec fn postings_docs(p: Seq<Posting>) -> Seq<usize> {
    p.map_values(|x: Posting| x.doc_id)
}

/// The documents of the postings of term `t` (none when the index lacks it).
pub open spec fn exact_docs(terms: Seq<(String, PostingList)>, t: Seq<char>) -> Seq<usize> {
    match lookup_from(terms, t, 0) {
        Some(k) => postings_docs(terms[k].1.postings@),
        None => Seq::empty(),
    }
}

/// The documents of the postings of each term, one after another.
pub open spec fn docs_of_terms(terms: Seq<(String, PostingList)>, ts: Seq<String>) -> Seq<usize>
    decreases ts.len(),
{
    if ts.len() == 0 {
        Seq::empty()
    } else {
        docs_of_terms(terms, ts.drop_last()) + exact_docs(terms, ts.last()@)
    }
}

/// The documents a query matches by exact words: those that every part
/// found in the index matches.
pub open spec fn spec_search_inverted(terms: Seq<(String, PostingList)>, parts: Seq<String>) -> Seq<usize> {
    common_docs(nonempty_lists(Seq::new(parts.len(), |i: int| exact_docs(terms, parts[i]@))))
}

fn postings_doc_ids(p: &Vec<Posting>) -> (r: Vec<usize>)
    ensures
        r@ == postings_docs(p@),
{
    let mut out: Vec<usize> = Vec::new();
    let mut i: usize = 0;
    while i < p.len()
        invariant
            i <= p@.len(),
            out@ == postings_docs(p@).take(i as int),
        decreases p@.len() - i,
    {
        out.push(p[i].doc_id);
        assert(postings_docs(p@).take(i + 1) =~= postings_docs(p@).take(i as int).push(p@[i as int].doc_id));
        i = i + 1;
    }
    assert(postings_docs(p@).take(i as int) =~= postings_docs(p@));
    out
}

/// Where term `t` stands in the index, if it does.
fn find_term(terms: &Vec<(String, PostingList)>, t: &String) -> (r: Option<usize>)
    ensures
        match r {
            Some(j) => lookup_from(terms@, t@, 0) == Some(j as int) && j < terms@.len(),
            None => lookup_from(terms@, t@, 0) is None,
        },
{
    proof {
        lemma_lookup_from(terms@, t@, 0);
    }
    let mut i: usize = 0;
    while i < terms.len()
        invariant
            i <= terms@.len(),
            lookup_from(terms@, t@, 0) == lookup_from(terms@, t@, i as int),
        decreases terms@.len() - i,
    {
        if terms[i].0 == *t {
            return Some(i);
        }
        i = i + 1;
    }
    None
}

/// The documents of the postings of term `t`.
fn exact_term_docs(terms: &Vec<(String, PostingList)>, t: &String) -> (r: Vec<usize>)
    ensures
        r@ == exact_docs(terms@, t@),
{
    match find_term(terms, t) {
        Some(k) => postings_doc_ids(&terms[k].1.postings),
        None => Vec::new(),
    }
}

/// The documents of the postings of each term, one after another.
fn terms_docs(terms: &Vec<(String, PostingList)>, ts: &Vec<String>) -> (r: Vec<usize>)
    ensures
        r@ == docs_of_terms(terms@, ts@),
{
    let mut out: Vec<usize> = Vec::new();
    let mut i: usize = 0;
    assert(ts@.take(0) =~= Seq::<String>::empty());
    while i < ts.len()
        invariant
            i <= ts@.len(),
            out@ == docs_of_terms(terms@, ts@.take(i as int)),
        decreases ts@.len() - i,
    {
        let more = exact_term_docs(terms, &ts[i]);
        let mut k: usize = 0;
        let ghost before = out@;
        while k < more.len()
            invariant
                k <= more@.len(),
                out@ == before + more@.take(k as int),
            decreases more@.len() - k,
        {
            out.push(more[k]);
            assert(more@.take(k + 1) =~= more@.take(k as int).push(more@[k as int]));
            assert(before + more@.take(k + 1) =~= (before + more@.take(k as int)).push(more@[k as int]));
            k = k + 1;
        }
        assert(more@.take(k as int) =~= more@);
        assert(ts@.take(i + 1).drop_last() =~= ts@.take(i as int));
        assert(ts@.take(i + 1).last() == ts@[i as int]);
        i = i + 1;
    }
    assert(ts@.take(i as int) =~= ts@);
    out
}

/// Search the inverted index alone: the documents that every part found
/// as a word of the index matches.
pub fn search_inverted_only(inverted: &InvertedIndex, parts: &Vec<String>) -> (r: Vec<usize>)
    ensures
        r@ == spec_search_inverted(inverted.terms@, parts@),
{
    let ghost want = Seq::new(parts@.len(), |i: int| exact_docs(inverted.terms@, parts@[i]@));
    let mut lists: Vec<Vec<usize>> = Vec::new();
    let mut i: usize = 0;
    while i < parts.len()
        invariant
            i <= parts@.len(),
            want == Seq::new(parts@.len(), |i: int| exact_docs(inverted.terms@, parts@[i]@)),
            lists_view(lists@) == want.take(i as int),
        decreases parts@.len() - i,
    {
        let docs = exact_term_docs(&inverted.terms, &parts[i]);
        let ghost before = lists@;
        lists.push(docs);
        assert(lists_view(lists@) =~= lists_view(before).push(want[i as int]));
        assert(want.take(i + 1) =~= want.take(i as int).push(want[i as int]));
        i = i + 1;
    }
    assert(want.take(i as int) =~= want);
    intersect_nonempty(&lists)
}

// ============================================================================
// THE UNIFIED INDEX
// ============================================================================

/// An index built in one of the three modes: the suffix array, the
/// inverted index, or both.
pub struct UnifiedIndex {
    pub docs: Vec<SearchDoc>,
    pub texts: Vec<String>,
    pub field_boundaries: Vec<FieldBoundary>,
    pub mode: IndexMode,
    pub suffix_array: Option<Vec<SuffixEntry>>,
    pub lcp: Option<Vec<usize>>,
    pub inverted_index: Option<InvertedIndex>,
}

/// The suffix array's answer, when the index has a suffix array and its
/// LCP array.
pub open spec fn unified_suffix_answer(index: UnifiedIndex, parts: Seq<String>) -> Seq<usize> {
    match (index.suffix_array, index.lcp) {
        (Some(sa), Some(_)) => spec_search_in(index.texts@, sa@, index.field_boundaries@, parts),
        _ => Seq::empty(),
    }
}

/// The inverted index's answer, when the index has one.
pub open spec fn unified_inverted_answer(index: UnifiedIndex, parts: Seq<String>) -> Seq<usize> {
    match index.inverted_index {
        Some(inv) => spec_search_inverted(inv.terms@, parts),
        None => Seq::empty(),
    }
}

/// What a unified index answers: by its mode, the suffix array, the
/// inverted index, or the inverted index first and the suffix array when
/// that finds nothing.
pub open spec fn spec_search_unified(index: UnifiedIndex, parts: Seq<String>) -> Seq<usize> {
    match index.mode {
        IndexMode::SuffixArrayOnly => unified_suffix_answer(index, parts),
        IndexMode::InvertedIndexOnly => unified_inverted_answer(index, parts),
        IndexMode::Hybrid => if unified_inverted_answer(index, parts).len() > 0 {
            unified_inverted_answer(index, parts)
        } else {
            unified_suffix_answer(index, parts)
        },
    }
}

fn unified_from_suffixes(index: &UnifiedIndex, parts: &Vec<String>) -> (r: Vec<usize>)
    requires
        index.suffix_array matches Some(sa) ==> spec_sorted(index.texts@, sa@),
    ensures
        r@ == unified_suffix_answer(*index, parts@),
{
    match (&index.suffix_array, &index.lcp) {
        (Some(sa), Some(_)) => search_in(&index.texts, sa, &index.field_boundaries, parts),
        _ => Vec::new(),
    }
}

fn unified_from_words(index: &UnifiedIndex, parts: &Vec<String>) -> (r: Vec<usize>)
    ensures
        r@ == unified_inverted_answer(*index, parts@),
{
    match &index.inverted_index {
        Some(inv) => search_inverted_only(inv, parts),
        None => Vec::new(),
    }
}

/// Search a unified index, dispatching on the mode chosen at build time.
pub fn search_unified(index: &UnifiedIndex, parts: &Vec<String>) -> (r: Vec<usize>)
    requires
        index.suffix_array matches Some(sa) ==> spec_sorted(index.texts@, sa@),
    ensures
        r@ == spec_search_unified(*index, parts@),
{
    match index.mode {
        IndexMode::SuffixArrayOnly => unified_from_suffixes(index, parts),
        IndexMode::InvertedIndexOnly => unified_from_words(index, parts),
        IndexMode::Hybrid => {
            let results = unified_from_words(index, parts);
            if results.len() > 0 {
                results
            } else {
                unified_from_suffixes(index, parts)
            }
        },
    }
}

// ============================================================================
// THE TIERS OF THE VOCABULARY INDEX
// ============================================================================

/// The vocabulary terms that hold `part` as a substring, in suffix array
/// order, each once.
pub open spec fn substring_terms(vocab: Seq<String>, vsa: Seq<crate::types::VocabSuffixEntry>, part: Seq<char>) -> Seq<
    String,
> {
    let mt = matching_terms(vocab, vsa, encode_utf8(part));
    Seq::new(mt.len(), |k: int| vocab[mt[k] as int])
}

/// The edit distance allowed for a part: 2 when it is longer than five
/// bytes, else 1.
pub open spec fn fuzzy_distance(part: Seq<char>) -> nat {
    if encode_utf8(part).len() > 5 {
        2
    } else {
        1
    }
}

/// The vocabulary terms within the allowed edit distance of `part`.
pub open spec fn near_terms(vocab: Seq<String>, part: Seq<char>) -> Seq<String> {
    fuzzy_terms(vocab, part, fuzzy_distance(part))
}

/// The fuzzy tier's words for a query part: a part longer than five UTF-8
/// bytes reaches every vocabulary word within two edits, a shorter part
/// every word within one edit, and no other word.
pub proof fn lemma_near_terms_reach(vocab: Seq<String>, part: Seq<char>, w: String)
    ensures
        encode_utf8(part).len() > 5 ==> (near_terms(vocab, part).contains(w) <==> (vocab.contains(w)
            && edit_distance(part, w@) <= 2)),
        encode_utf8(part).len() <= 5 ==> (near_terms(vocab, part).contains(w) <==> (vocab.contains(w)
            && edit_distance(part, w@) <= 1)),
{
    lemma_fuzzy_terms_members(vocab, part, fuzzy_distance(part), w);
}

/// The documents one part finds through the tiers: its own postings when
/// it is a word of the index, else those of the words that hold it, else
/// those of the words within the allowed edit distance.
pub open spec fn tier_docs(index: FstIndex, part: Seq<char>) -> Seq<usize> {
    let terms = index.inverted_index.terms@;
    if lookup_from(terms, part, 0) is Some {
        exact_docs(terms, part)
    } else if substring_terms(index.vocabulary@, index.vocab_suffix_array@, part).len() > 0 {
        docs_of_terms(terms, substring_terms(index.vocabulary@, index.vocab_suffix_array@, part))
    } else {
        docs_of_terms(terms, near_terms(index.vocabulary@, part))
    }
}

/// The exact tier: documents that every part found as a word matches.
pub open spec fn spec_search_exact(index: FstIndex, parts: Seq<String>) -> Seq<usize> {
    spec_search_inverted(index.inverted_index.terms@, parts)
}

/// The substring tier: documents, not among `exclude`, that every part
/// with such a document matches through the words that hold it.
pub open spec fn spec_search_expanded(index: FstIndex, parts: Seq<String>, exclude: Seq<usize>) -> Seq<usize> {
    common_docs(
        nonempty_lists(
            Seq::new(
                parts.len(),
                |i: int|
                    without(
                        docs_of_terms(
                            index.inverted_index.terms@,
                            substring_terms(index.vocabulary@, index.vocab_suffix_array@, parts[i]@),
                        ),
                        exclude,
                    ),
            ),
        ),
    )
}

/// The edit-distance tier: documents, not among `exclude`, that every part
/// with such a document matches through the words near it.
pub open spec fn spec_search_fuzzy(index: FstIndex, parts: Seq<String>, exclude: Seq<usize>) -> Seq<usize> {
    common_docs(
        nonempty_lists(
            Seq::new(
                parts.len(),
                |i: int| without(docs_of_terms(index.inverted_index.terms@, near_terms(index.vocabulary@, parts[i]@)), exclude),
            ),
        ),
    )
}

/// The full search: documents that every part with a hit matches, each
/// part going through the tiers.
pub open spec fn spec_search_hybrid(index: FstIndex, parts: Seq<String>) -> Seq<usize> {
    common_docs(nonempty_lists(Seq::new(parts.len(), |i: int| tier_docs(index, parts[i]@))))
}

/// Part lengths and term lengths leave room to count characters.
pub open spec fn lengths_countable(index: FstIndex, parts: Seq<String>) -> bool {
    &&& forall|i: int| 0 <= i < parts.len() ==> (#[trigger] parts[i])@.len() < usize::MAX
    &&& forall|i: int| 0 <= i < index.vocabulary@.len() ==> (#[trigger] index.vocabulary@[i])@.len() < usize::MAX
}

fn substring_term_list(index: &FstIndex, part: &String) -> (r: Vec<String>)
    requires
        suffix_array_ordered(index.vocabulary@, index.vocab_suffix_array@),
    ensures
        r@ == substring_terms(index.vocabulary@, index.vocab_suffix_array@, part@),
{
    let r = find_substring_matches(index.vocabulary.as_slice(), index.vocab_suffix_array.as_slice(), part.as_str());
    assert(r@ =~= substring_terms(index.vocabulary@, index.vocab_suffix_array@, part@));
    r
}

fn near_term_list(index: &FstIndex, part: &String) -> (r: Vec<String>)
    requires
        part@.len() < usize::MAX,
        forall|i: int| 0 <= i < index.vocabulary@.len() ==> (#[trigger] index.vocabulary@[i])@.len() < usize::MAX,
    ensures
        r@ == near_terms(index.vocabulary@, part@),
{
    let max_distance: u32 = if part.as_str().as_bytes().len() > 5 { 2 } else { 1 };
    find_fuzzy_matches(index.vocabulary.as_slice(), part.as_str(), max_distance)
}

/// The exact tier: the documents that every part found as a word of the
/// index matches.
pub fn search_exact(index: &FstIndex, parts: &Vec<String>) -> (r: Vec<usize>)
    ensures
        r@ == spec_search_exact(*index, parts@),
{
    search_inverted_only(&index.inverted_index, parts)
}

/// The substring tier: the documents, other than those in `exclude_ids`,
/// that every part matches through the words that hold it.
pub fn search_expanded(index: &FstIndex, parts: &Vec<String>, exclude_ids: &[usize]) -> (r: Vec<usize>)
    requires
        suffix_array_ordered(index.vocabulary@, index.vocab_suffix_array@),
    ensures
        r@ == spec_search_expanded(*index, parts@, exclude_ids@),
{
    let ghost want = Seq::new(
        parts@.len(),
        |i: int|
            without(
                docs_of_terms(
                    index.inverted_index.terms@,
                    substring_terms(index.vocabulary@, index.vocab_suffix_array@, parts@[i]@),
                ),
                exclude_ids@,
            ),
    );
    let mut lists: Vec<Vec<usize>> = Vec::new();
    let mut i: usize = 0;
    while i < parts.len()
        invariant
            i <= parts@.len(),
            suffix_array_ordered(index.vocabulary@, index.vocab_suffix_array@),
            want == Seq::new(
                parts@.len(),
                |i: int|
                    without(
                        docs_of_terms(
                            index.inverted_index.terms@,
                            substring_terms(index.vocabulary@, index.vocab_suffix_array@, parts@[i]@),
                        ),
                        exclude_ids@,
                    ),
            ),
            lists_view(lists@) == want.take(i as int),
        decreases parts@.len() - i,
    {
        let words = substring_term_list(index, &parts[i]);
        let docs = terms_docs(&index.inverted_index.terms, &words);
        let kept = exclude_docs(&docs, exclude_ids);
        let ghost before = lists@;
        lists.push(kept);
        assert(lists_view(lists@) =~= lists_view(before).push(want[i as int]));
        assert(want.take(i + 1) =~= want.take(i as int).push(want[i as int]));
        i = i + 1;
    }
    assert(want.take(i as int) =~= want);
    intersect_nonempty(&lists)
}

/// The edit-distance tier: the documents, other than those in
/// `exclude_ids`, that every part matches through the words within the
/// allowed distance of it.
pub fn search_fuzzy(index: &FstIndex, parts: &Vec<String>, exclude_ids: &[usize]) -> (r: Vec<usize>)
    requires
        lengths_countable(*index, parts@),
    ensures
        r@ == spec_search_fuzzy(*index, parts@, exclude_ids@),
{
    let ghost want = Seq::new(
        parts@.len(),
        |i: int| without(docs_of_terms(index.inverted_index.terms@, near_terms(index.vocabulary@, parts@[i]@)), exclude_ids@),
    );
    let mut lists: Vec<Vec<usize>> = Vec::new();
    let mut i: usize = 0;
    while i < parts.len()
        invariant
            i <= parts@.len(),
            lengths_countable(*index, parts@),
            want == Seq::new(
                parts@.len(),
                |i: int| without(docs_of_terms(index.inverted_index.terms@, near_terms(index.vocabulary@, parts@[i]@)), exclude_ids@),
            ),
            lists_view(lists@) == want.take(i as int),
        decreases parts@.len() - i,
    {
        assert(parts@[i as int]@.len() < usize::MAX);
        let words = near_term_list(index, &parts[i]);
        let docs = terms_docs(&index.inverted_index.terms, &words);
        let kept = exclude_docs(&docs, exclude_ids);
        let ghost before = lists@;
        lists.push(kept);
        assert(lists_view(lists@) =~= lists_view(before).push(want[i as int]));
        assert(want.take(i + 1) =~= want.take(i as int).push(want[i as int]));
        i = i + 1;
    }
    assert(want.take(i as int) =~= want);
    intersect_nonempty(&lists)
}

/// The documents one part finds through the tiers.
fn part_tier_docs(index: &FstIndex, part: &String) -> (r: Vec<usize>)
    requires
        suffix_array_ordered(index.vocabulary@, index.vocab_suffix_array@),
        part@.len() < usize::MAX,
        forall|i: int| 0 <= i < index.vocabulary@.len() ==> (#[trigger] index.vocabulary@[i])@.len() < usize::MAX,
    ensures
        r@ == tier_docs(*index, part@),
{
    if find_term(&index.inverted_index.terms, part).is_some() {
        return exact_term_docs(&index.inverted_index.terms, part);
    }
    let words = substring_term_list(index, part);
    if words.len() > 0 {
        return terms_docs(&index.inverted_index.terms, &words);
    }
    let near = near_term_list(index, part);
    terms_docs(&index.inverted_index.terms, &near)
}

/// The full search: the documents that every part with a hit matches, each
/// part looked up as a word, then as a substring of words, then within a
/// small edit distance of words.
pub fn search_hybrid(index: &FstIndex, parts: &Vec<String>) -> (r: Vec<usize>)
    requires
        suffix_array_ordered(index.vocabulary@, index.vocab_suffix_array@),
        lengths_countable(*index, parts@),
    ensures
        r@ == spec_search_hybrid(*index, parts@),
{
    let ghost want = Seq::new(parts@.len(), |i: int| tier_docs(*index, parts@[i]@));
    let mut lists: Vec<Vec<usize>> = Vec::new();
    let mut i: usize = 0;
    while i < parts.len()
        invariant
            i <= parts@.len(),
            suffix_array_ordered(index.vocabulary@, index.vocab_suffix_array@),
            lengths_countable(*index, parts@),
            want == Seq::new(parts@.len(), |i: int| tier_docs(*index, parts@[i]@)),
            lists_view(lists@) == want.take(i as int),
        decreases parts@.len() - i,
    {
        assert(parts@[i as int]@.len() < usize::MAX);
        let docs = part_tier_docs(index, &parts[i]);
        let ghost before = lists@;
        lists.push(docs);
        assert(lists_view(lists@) =~= lists_view(before).push(want[i as int]));
        assert(want.take(i + 1) =~= want.take(i as int).push(want[i as int]));
        i = i + 1;
    }
    assert(want.take(i as int) =~= want);
    intersect_nonempty(&lists)
}

// ============================================================================
// LAWS OF THE TIERS
// ============================================================================

/// With one list, the common documents are those of the list.
proof fn lemma_single_list(lists: Seq<Seq<usize>>)
    requires
        lists.len() == 1,
    ensures
        forall|d: usize| #[trigger] common_docs(nonempty_lists(lists)).contains(d) <==> lists[0].contains(d),
{
    let l = lists[0];
    assert(lists.drop_last() =~= Seq::<Seq<usize>>::empty());
    assert(nonempty_lists(lists.drop_last()) =~= Seq::<Seq<usize>>::empty());
    assert(lists.last() == l);
    let nl = nonempty_lists(lists);
    lemma_common_docs(nl);
    if l.len() > 0 {
        assert(nl =~= seq![l]);
        assert forall|d: usize| #[trigger] common_docs(nl).contains(d) <==> l.contains(d) by {
            if l.contains(d) {
                assert forall|i: int| 0 <= i < nl.len() implies (#[trigger] nl[i]).contains(d) by {
                    assert(nl[i] == l);
                }
            }
            if common_docs(nl).contains(d) {
                assert(nl[0].contains(d));
            }
        }
    } else {
        assert(nl =~= Seq::<Seq<usize>>::empty());
        assert forall|d: usize| #[trigger] common_docs(nl).contains(d) <==> l.contains(d) by {
            if l.contains(d) {
                let k = choose|k: int| 0 <= k < l.len() && l[k] == d;
            }
        }
    }
}

/// Every list kept is one of the lists.
proof fn lemma_nonempty_members(lists: Seq<Seq<usize>>)
    ensures
        forall|k: int|
            0 <= k < nonempty_lists(lists).len() ==> exists|j: int| 0 <= j < lists.len() && #[trigger] nonempty_lists(lists)[k] == lists[j],
    decreases lists.len(),
{
    if lists.len() > 0 {
        let init = lists.drop_last();
        lemma_nonempty_members(init);
        let p = nonempty_lists(init);
        assert forall|k: int| 0 <= k < nonempty_lists(lists).len() implies exists|j: int|
            0 <= j < lists.len() && #[trigger] nonempty_lists(lists)[k] == lists[j] by {
            if k < p.len() {
                assert(nonempty_lists(lists)[k] == p[k]);
                let j = choose|j: int| 0 <= j < init.len() && p[k] == init[j];
                assert(lists[j] == init[j]);
            } else {
                assert(nonempty_lists(lists)[k] == lists[lists.len() - 1]);
            }
        }
    }
}

/// When no list holds an excluded document, neither do the common ones.
proof fn lemma_common_without(lists: Seq<Seq<usize>>, exclude: Seq<usize>)
    requires
        forall|j: int, d: usize| 0 <= j < lists.len() && #[trigger] lists[j].contains(d) ==> !exclude.contains(d),
    ensures
        forall|d: usize| #[trigger] common_docs(nonempty_lists(lists)).contains(d) ==> !exclude.contains(d),
{
    let nl = nonempty_lists(lists);
    lemma_common_docs(nl);
    lemma_nonempty_members(lists);
    assert forall|d: usize| #[trigger] common_docs(nl).contains(d) implies !exclude.contains(d) by {
        assert(nl[0].contains(d));
        let j = choose|j: int| 0 <= j < lists.len() && nl[0] == lists[j];
        assert(lists[j].contains(d));
    }
}

/// The substring tier never returns a document it was told to exclude: its
/// results are disjoint from the exact results it is given.
pub proof fn lemma_expanded_excludes(index: FstIndex, parts: Seq<String>, exclude: Seq<usize>)
    ensures
        forall|d: usize| #[trigger] spec_search_expanded(index, parts, exclude).contains(d) ==> !exclude.contains(d),
{
    let lists = Seq::new(
        parts.len(),
        |i: int|
            without(
                docs_of_terms(
                    index.inverted_index.terms@,
                    substring_terms(index.vocabulary@, index.vocab_suffix_array@, parts[i]@),
                ),
                exclude,
            ),
    );
    assert forall|j: int, d: usize| 0 <= j < lists.len() && #[trigger] lists[j].contains(d) implies !exclude.contains(d) by {
        lemma_without(
            docs_of_terms(index.inverted_index.terms@, substring_terms(index.vocabulary@, index.vocab_suffix_array@, parts[j]@)),
            exclude,
        );
    }
    lemma_common_without(lists, exclude);
}

/// The edit-distance tier never returns a document it was told to exclude.
pub proof fn lemma_fuzzy_excludes(index: FstIndex, parts: Seq<String>, exclude: Seq<usize>)
    ensures
        forall|d: usize| #[trigger] spec_search_fuzzy(index, parts, exclude).contains(d) ==> !exclude.contains(d),
{
    let lists = Seq::new(
        parts.len(),
        |i: int| without(docs_of_terms(index.inverted_index.terms@, near_terms(index.vocabulary@, parts[i]@)), exclude),
    );
    assert forall|j: int, d: usize| 0 <= j < lists.len() && #[trigger] lists[j].contains(d) implies !exclude.contains(d) by {
        lemma_without(docs_of_terms(index.inverted_index.terms@, near_terms(index.vocabulary@, parts[j]@)), exclude);
    }
    lemma_common_without(lists, exclude);
}

/// A document is among the documents of some terms exactly when one of the
/// terms lists it.
pub proof fn lemma_docs_of_terms_members(terms: Seq<(String, PostingList)>, ts: Seq<String>, d: usize)
    ensures
        docs_of_terms(terms, ts).contains(d) <==> exists|k: int| 0 <= k < ts.len() && #[trigger] exact_docs(terms, ts[k]@).contains(d),
    decreases ts.len(),
{
    if ts.len() > 0 {
        let init = ts.drop_last();
        lemma_docs_of_terms_members(terms, init, d);
        let a = docs_of_terms(terms, init);
        let b = exact_docs(terms, ts.last()@);
        if docs_of_terms(terms, ts).contains(d) {
            let j = choose|j: int| 0 <= j < (a + b).len() && (a + b)[j] == d;
            if j < a.len() {
                assert(a[j] == d);
                assert(a.contains(d));
                let k = choose|k: int| 0 <= k < init.len() && #[trigger] exact_docs(terms, init[k]@).contains(d);
                assert(ts[k] == init[k]);
            } else {
                assert(b[j - a.len()] == d);
                assert(b.contains(d));
                assert(exact_docs(terms, ts[ts.len() - 1]@).contains(d));
            }
        }
        if exists|k: int| 0 <= k < ts.len() && #[trigger] exact_docs(terms, ts[k]@).contains(d) {
            let k = choose|k: int| 0 <= k < ts.len() && #[trigger] exact_docs(terms, ts[k]@).contains(d);
            if k < init.len() {
                assert(init[k] == ts[k]);
                assert(exact_docs(terms, init[k]@).contains(d));
                assert(a.contains(d));
                let j = choose|j: int| 0 <= j < a.len() && a[j] == d;
                assert((a + b)[j] == d);
            } else {
                assert(ts[k] == ts.last());
                let j = choose|j: int| 0 <= j < b.len() && b[j] == d;
                assert((a + b)[a.len() + j] == d);
            }
        }
    }
}

/// A one-part query finds through the fuzzy tier exactly the documents of
/// the vocabulary words within two edits of the part when the part is
/// longer than five UTF-8 bytes, within one edit otherwise.
pub proof fn lemma_fuzzy_tier_documents(index: FstIndex, p: String, d: usize)
    ensures
        encode_utf8(p@).len() > 5 ==> (spec_search_fuzzy(index, seq![p], seq![]).contains(d) <==> exists|w: String|
            #[trigger] index.vocabulary@.contains(w) && edit_distance(p@, w@) <= 2 && exact_docs(
                index.inverted_index.terms@,
                w@,
            ).contains(d)),
        encode_utf8(p@).len() <= 5 ==> (spec_search_fuzzy(index, seq![p], seq![]).contains(d) <==> exists|w: String|
            #[trigger] index.vocabulary@.contains(w) && edit_distance(p@, w@) <= 1 && exact_docs(
                index.inverted_index.terms@,
                w@,
            ).contains(d)),
{
    let terms = index.inverted_index.terms@;
    let vocab = index.vocabulary@;
    let near = near_terms(vocab, p@);
    let parts = seq![p];
    let ex: Seq<usize> = seq![];
    let lists = Seq::new(parts.len(), |i: int| without(docs_of_terms(terms, near_terms(vocab, parts[i]@)), ex));
    lemma_single_list(lists);
    assert(lists[0] == without(docs_of_terms(terms, near), ex));
    lemma_without(docs_of_terms(terms, near), ex);
    lemma_docs_of_terms_members(terms, near, d);
    let bound: nat = if encode_utf8(p@).len() > 5 { 2 } else { 1 };
    let found = exists|w: String| #[trigger] vocab.contains(w) && edit_distance(p@, w@) <= bound && exact_docs(terms, w@).contains(d);
    if spec_search_fuzzy(index, parts, ex).contains(d) {
        assert(docs_of_terms(terms, near).contains(d));
        let k = choose|k: int| 0 <= k < near.len() && #[trigger] exact_docs(terms, near[k]@).contains(d);
        let w = near[k];
        assert(near.contains(w));
        lemma_near_terms_reach(vocab, p@, w);
        assert(vocab.contains(w) && edit_distance(p@, w@) <= bound && exact_docs(terms, w@).contains(d));
    }
    if found {
        let w = choose|w: String| #[trigger] vocab.contains(w) && edit_distance(p@, w@) <= bound && exact_docs(terms, w@).contains(d);
        lemma_near_terms_reach(vocab, p@, w);
        assert(near.contains(w));
        let k = choose|k: int| 0 <= k < near.len() && near[k] == w;
        assert(exact_docs(terms, near[k]@).contains(d));
        assert(docs_of_terms(terms, near).contains(d));
        assert(!ex.contains(d));
    }
}

/// For a one-part query, a document of the exact tier is one the part
/// finds: as a word, through its own postings.
proof fn lemma_one_part_exact(index: FstIndex, p: String)
    ensures
        forall|d: usize| #[trigger] spec_search_exact(index, seq![p]).contains(d) <==> exact_docs(index.inverted_index.terms@, p@).contains(d),
{
    let parts = seq![p];
    let lists = Seq::new(parts.len(), |i: int| exact_docs(index.inverted_index.terms@, parts[i]@));
    lemma_single_list(lists);
}

proof fn lemma_one_part_full(index: FstIndex, p: String)
    ensures
        forall|d: usize| #[trigger] spec_search_hybrid(index, seq![p]).contains(d) <==> tier_docs(index, p@).contains(d),
{
    let parts = seq![p];
    let lists = Seq::new(parts.len(), |i: int| tier_docs(index, parts[i]@));
    lemma_single_list(lists);
}

proof fn lemma_one_part_expanded(index: FstIndex, p: String, exclude: Seq<usize>)
    ensures
        forall|d: usize| #[trigger] spec_search_expanded(index, seq![p], exclude).contains(d) <==> without(
            docs_of_terms(index.inverted_index.terms@, substring_terms(index.vocabulary@, index.vocab_suffix_array@, p@)),
            exclude,
        ).contains(d),
{
    let parts = seq![p];
    let lists = Seq::new(
        parts.len(),
        |i: int|
            without(
                docs_of_terms(
                    index.inverted_index.terms@,
                    substring_terms(index.vocabulary@, index.vocab_suffix_array@, parts[i]@),
                ),
                exclude,
            ),
    );
    lemma_single_list(lists);
}

/// For a one-part query, the exact results are among the full results.
pub proof fn lemma_exact_within_full(index: FstIndex, p: String)
    ensures
        forall|d: usize| #[trigger] spec_search_exact(index, seq![p]).contains(d) ==> spec_search_hybrid(index, seq![p]).contains(d),
{
    lemma_one_part_exact(index, p);
    lemma_one_part_full(index, p);
    assert forall|d: usize| #[trigger] spec_search_exact(index, seq![p]).contains(d) implies spec_search_hybrid(
        index,
        seq![p],
    ).contains(d) by {
        assert(exact_docs(index.inverted_index.terms@, p@).contains(d));
        if lookup_from(index.inverted_index.terms@, p@, 0) is None {
            assert(exact_docs(index.inverted_index.terms@, p@) =~= Seq::<usize>::empty());
        }
        assert(tier_docs(index, p@).contains(d));
    }
}

/// When every part of a query is a word of the index, or finds nothing at
/// all, the exact tier returns exactly the full results.
pub proof fn lemma_exact_is_full_for_words(index: FstIndex, parts: Seq<String>)
    requires
        forall|i: int| 0 <= i < parts.len() ==> lookup_from(index.inverted_index.terms@, (#[trigger] parts[i])@, 0) is Some
            || tier_docs(index, parts[i]@).len() == 0,
    ensures
        spec_search_exact(index, parts) == spec_search_hybrid(index, parts),
{
    let terms = index.inverted_index.terms@;
    let exact_lists = Seq::new(parts.len(), |i: int| exact_docs(terms, parts[i]@));
    let full_lists = Seq::new(parts.len(), |i: int| tier_docs(index, parts[i]@));
    assert forall|i: int| 0 <= i < parts.len() implies #[trigger] exact_lists[i] == full_lists[i] by {
        if lookup_from(terms, parts[i]@, 0) is None {
            assert(exact_docs(terms, parts[i]@) =~= Seq::<usize>::empty());
            assert(full_lists[i].len() == 0);
            assert(full_lists[i] =~= Seq::<usize>::empty());
        }
    }
    assert(exact_lists =~= full_lists);
}

/// For a one-part query found as a word or inside words, every full result
/// is an exact result or a substring-tier result once the exact results
/// are excluded: the streamed tiers together cover the full search.
pub proof fn lemma_streaming_covers_full(index: FstIndex, p: String)
    requires
        lookup_from(index.inverted_index.terms@, p@, 0) is Some
            || substring_terms(index.vocabulary@, index.vocab_suffix_array@, p@).len() > 0,
    ensures
        forall|d: usize| #[trigger] spec_search_hybrid(index, seq![p]).contains(d) ==> spec_search_exact(index, seq![p]).contains(d)
            || spec_search_expanded(index, seq![p], spec_search_exact(index, seq![p])).contains(d),
{
    let exact = spec_search_exact(index, seq![p]);
    let sub = docs_of_terms(index.inverted_index.terms@, substring_terms(index.vocabulary@, index.vocab_suffix_array@, p@));
    lemma_one_part_exact(index, p);
    lemma_one_part_full(index, p);
    lemma_one_part_expanded(index, p, exact);
    lemma_without(sub, exact);
    assert forall|d: usize| #[trigger] spec_search_hybrid(index, seq![p]).contains(d) implies spec_search_exact(index, seq![p]).contains(d)
        || spec_search_expanded(index, seq![p], exact).contains(d) by {
        assert(tier_docs(index, p@).contains(d));
        if lookup_from(index.inverted_index.terms@, p@, 0) is Some {
            assert(exact_docs(index.inverted_index.terms@, p@).contains(d));
        } else {
            assert(sub.contains(d));
            if exact.contains(d) {
            } else {
                assert(without(sub, exact).contains(d));
            }
        }
    }
}

/// For a one-part query that is no word of the index but lies inside
/// words, the exact tier finds nothing and the substring tier finds
/// exactly the full results.
pub proof fn lemma_prefix_union_is_full(index: FstIndex, p: String)
    requires
        lookup_from(index.inverted_index.terms@, p@, 0) is None,
        substring_terms(index.vocabulary@, index.vocab_suffix_array@, p@).len() > 0,
    ensures
        spec_search_exact(index, seq![p]).len() == 0,
        forall|d: usize| #[trigger] spec_search_expanded(index, seq![p], spec_search_exact(index, seq![p])).contains(d)
            <==> spec_search_hybrid(index, seq![p]).contains(d),
{
    let exact = spec_search_exact(index, seq![p]);
    let sub = docs_of_terms(index.inverted_index.terms@, substring_terms(index.vocabulary@, index.vocab_suffix_array@, p@));
    lemma_one_part_exact(index, p);
    lemma_one_part_full(index, p);
    lemma_one_part_expanded(index, p, exact);
    lemma_without(sub, exact);
    assert(exact_docs(index.inverted_index.terms@, p@) =~= Seq::<usize>::empty());
    if exact.len() > 0 {
        assert(exact.contains(exact[0]));
    }
    assert forall|d: usize| #[trigger] spec_search_expanded(index, seq![p], exact).contains(d) <==> spec_search_hybrid(
        index,
        seq![p],
    ).contains(d) by {
        assert(!exact.contains(d)) by {
            if exact.contains(d) {
                let k = choose|k: int| 0 <= k < exact.len() && exact[k] == d;
            }
        }
        assert(without(sub, exact).contains(d) <==> sub.contains(d));
        assert(tier_docs(index, p@) == sub);
    }
}

} // verus!
