//! Vocabulary lookups behind hybrid search: terms that hold the query as a
//! substring, found through the vocabulary suffix array, and terms within
//! a few edits of it.

use std::collections::HashSet;

use vstd::prelude::*;
use vstd::slice::slice_subrange;
use vstd::utf8::encode_utf8;

use crate::levenshtein::{chars_of, edit_distance, lemma_length_difference_bound, levenshtein_within};
use crate::sais::{entry_term_suffix, term_bytes};
use crate::text::{compare_bytes, lemma_lex_total, lemma_lex_trans, lex_lt, Comparison};
use crate::types::VocabSuffixEntry;

verus! {

broadcast use vstd::std_specs::hash::group_hash_axioms;

/// `s` begins with `p`.
pub open spec fn starts_with(s: Seq<u8>, p: Seq<u8>) -> bool {
    p.len() <= s.len() && s.take(p.len() as int) == p
}

/// A byte offset that starts a character of the term (or ends the term).
pub open spec fn at_char_boundary(bytes: Seq<u8>, i: int) -> bool {
    i == 0 || i == bytes.len() || (0 < i < bytes.len() && (bytes[i] & 0xc0) != 0x80)
}

/// The entry names a term of the vocabulary and a character boundary in it.
pub open spec fn entry_in_vocab(vocab: Seq<String>, e: VocabSuffixEntry) -> bool {
    &&& e.term_idx < vocab.len()
    &&& e.offset <= term_bytes(vocab, e.term_idx as int).len()
    &&& at_char_boundary(term_bytes(vocab, e.term_idx as int), e.offset as int)
}

/// The suffix array is valid for the vocabulary and its term suffixes come
/// in byte order.
pub open spec fn suffix_array_ordered(vocab: Seq<String>, sa: Seq<VocabSuffixEntry>) -> bool {
    &&& forall|i: int| 0 <= i < sa.len() ==> entry_in_vocab(vocab, #[trigger] sa[i])
    &&& forall|i: int, j: int|
        0 <= i < j < sa.len() ==> !lex_lt(
            entry_term_suffix(vocab, #[trigger] sa[j]),
            entry_term_suffix(vocab, #[trigger] sa[i]),
        )
}

/// The terms, each once and in suffix array order, that have a suffix
/// beginning with the query.
pub open spec fn matching_terms(vocab: Seq<String>, sa: Seq<VocabSuffixEntry>, q: Seq<u8>) -> Seq<usize>
    decreases sa.len(),
{
    if sa.len() == 0 {
        Seq::empty()
    } else {
        let prev = matching_terms(vocab, sa.drop_last(), q);
        let e = sa.last();
        if starts_with(entry_term_suffix(vocab, e), q) && !prev.contains(e.term_idx) {
            prev.push(e.term_idx)
        } else {
            prev
        }
    }
}

/// A string that begins with `q` does not come before `q`.
pub(crate) proof fn lemma_prefix_not_below(s: Seq<u8>, q: Seq<u8>)
    requires
        starts_with(s, q),
    ensures
        !lex_lt(s, q),
    decreases q.len(),
{
    if q.len() > 0 {
        assert(s[0] == s.take(q.len() as int)[0]);
        assert(s.drop_first().take(q.len() - 1) =~= s.take(q.len() as int).drop_first());
        lemma_prefix_not_below(s.drop_first(), q.drop_first());
    }
}

/// Past the first string that neither comes before `q` nor begins with it,
/// no string in order begins with `q`.
pub(crate) proof fn lemma_past_prefix_run(s: Seq<u8>, q: Seq<u8>, t: Seq<u8>)
    requires
        !lex_lt(s, q),
        !starts_with(s, q),
        !lex_lt(t, s),
    ensures
        !starts_with(t, q),
    decreases q.len(),
{
    if q.len() == 0 {
        assert(s.take(0) =~= q);
    } else if s.len() == 0 {
    } else if t.len() == 0 {
    } else {
        if starts_with(t, q) {
            assert(t[0] == t.take(q.len() as int)[0]);
        }
        if s[0] == q[0] && t[0] == s[0] {
            if starts_with(s.drop_first(), q.drop_first()) {
                assert(s.take(q.len() as int) =~= seq![s[0]] + s.drop_first().take(q.len() - 1));
                assert(q =~= seq![q[0]] + q.drop_first());
            }
            if starts_with(t, q) {
                assert(t.drop_first().take(q.len() - 1) =~= t.take(q.len() as int).drop_first());
            }
            lemma_past_prefix_run(s.drop_first(), q.drop_first(), t.drop_first());
        }
    }
}

/// Entries that do not match leave the matching terms as they were.
proof fn lemma_matching_terms_tail(vocab: Seq<String>, sa: Seq<VocabSuffixEntry>, q: Seq<u8>, k: int)
    requires
        0 <= k <= sa.len(),
        forall|j: int| k <= j < sa.len() ==> !starts_with(entry_term_suffix(vocab, #[trigger] sa[j]), q),
    ensures
        matching_terms(vocab, sa, q) == matching_terms(vocab, sa.take(k), q),
    decreases sa.len() - k,
{
    if k < sa.len() {
        lemma_matching_terms_tail(vocab, sa, q, k + 1);
        assert(sa.take(k + 1).drop_last() =~= sa.take(k));
    } else {
        assert(sa.take(k) =~= sa);
    }
}

/// Entries before `k` that do not match add nothing.
proof fn lemma_matching_terms_head(vocab: Seq<String>, sa: Seq<VocabSuffixEntry>, q: Seq<u8>, k: int)
    requires
        0 <= k <= sa.len(),
        forall|j: int| 0 <= j < k ==> !starts_with(entry_term_suffix(vocab, #[trigger] sa[j]), q),
    ensures
        matching_terms(vocab, sa.take(k), q) == Seq::<usize>::empty(),
    decreases k,
{
    if k > 0 {
        assert(sa.take(k).drop_last() =~= sa.take(k - 1));
        lemma_matching_terms_head(vocab, sa, q, k - 1);
    }
}

/// Substring search reports a term exactly when some suffix array entry of
/// that term has a suffix beginning with the query, and reports it once.
pub proof fn lemma_matching_terms_exact(vocab: Seq<String>, sa: Seq<VocabSuffixEntry>, q: Seq<u8>, t: usize)
    ensures
        matching_terms(vocab, sa, q).contains(t) <==> exists|i: int|
            0 <= i < sa.len() && (#[trigger] sa[i]).term_idx == t && starts_with(entry_term_suffix(vocab, sa[i]), q),
        forall|a: int, b: int|
            0 <= a < b < matching_terms(vocab, sa, q).len() ==> matching_terms(vocab, sa, q)[a] != matching_terms(
                vocab,
                sa,
                q,
            )[b],
    decreases sa.len(),
{
    if sa.len() > 0 {
        let prev_sa = sa.drop_last();
        lemma_matching_terms_exact(vocab, prev_sa, q, t);
        let prev = matching_terms(vocab, prev_sa, q);
        let e = sa.last();
        if matching_terms(vocab, sa, q).contains(t) {
            let k = choose|k: int| 0 <= k < matching_terms(vocab, sa, q).len() && matching_terms(vocab, sa, q)[k] == t;
            if k < prev.len() {
                assert(prev[k] == t);
                let i = choose|i: int|
                    0 <= i < prev_sa.len() && (#[trigger] prev_sa[i]).term_idx == t && starts_with(
                        entry_term_suffix(vocab, prev_sa[i]),
                        q,
                    );
                assert(sa[i] == prev_sa[i]);
            } else {
                assert(sa[sa.len() - 1] == e);
            }
        }
        if exists|i: int|
            0 <= i < sa.len() && (#[trigger] sa[i]).term_idx == t && starts_with(entry_term_suffix(vocab, sa[i]), q) {
            let i = choose|i: int|
                0 <= i < sa.len() && (#[trigger] sa[i]).term_idx == t && starts_with(entry_term_suffix(vocab, sa[i]), q);
            if i < prev_sa.len() {
                assert(prev_sa[i] == sa[i]);
                let k = choose|k: int| 0 <= k < prev.len() && prev[k] == t;
                assert(matching_terms(vocab, sa, q)[k] == t);
            } else {
                if !prev.contains(t) {
                    assert(matching_terms(vocab, sa, q)[prev.len() as int] == t);
                } else {
                    let k = choose|k: int| 0 <= k < prev.len() && prev[k] == t;
                    assert(matching_terms(vocab, sa, q)[k] == t);
                }
            }
        }
        assert forall|a: int, b: int|
            0 <= a < b < matching_terms(vocab, sa, q).len() implies matching_terms(vocab, sa, q)[a]
            != matching_terms(vocab, sa, q)[b] by {
            lemma_matching_terms_exact(vocab, prev_sa, q, matching_terms(vocab, sa, q)[b]);
            if b == prev.len() {
                assert(prev[a] == matching_terms(vocab, sa, q)[a]);
            }
        }
    }
}

/// The bytes of an entry's suffix.
fn entry_suffix_bytes<'a>(vocabulary: &'a [String], e: &VocabSuffixEntry) -> (r: &'a [u8])
    requires
        entry_in_vocab(vocabulary@, *e),
    ensures
        r@ == entry_term_suffix(vocabulary@, *e),
{
    let bytes = vocabulary[e.term_idx].as_str().as_bytes();
    slice_subrange(bytes, e.offset, bytes.len())
}

/// Does `s` begin with `p`?
pub(crate) fn bytes_start_with(s: &[u8], p: &[u8]) -> (r: bool)
    ensures
        r == starts_with(s@, p@),
{
    if p.len() > s.len() {
        return false;
    }
    let mut i: usize = 0;
    while i < p.len()
        invariant
            i <= p@.len(),
            p@.len() <= s@.len(),
            s@.take(i as int) == p@.take(i as int),
        decreases p@.len() - i,
    {
        if s[i] != p[i] {
            assert(s@.take(p@.len() as int)[i as int] != p@[i as int]);
            return false;
        }
        i = i + 1;
        assert(s@.take(i as int) =~= p@.take(i as int));
    }
    assert(p@.take(i as int) =~= p@);
    true
}

/// The terms that hold the query as a substring: a binary search finds the
/// first suffix not below the query, and the run of suffixes that begin
/// with it follows; each term is reported once, in suffix array order.
pub fn find_substring_matches(vocabulary: &[String], vocab_suffix_array: &[VocabSuffixEntry], query: &str) -> (r: Vec<String>)
    requires
        suffix_array_ordered(vocabulary@, vocab_suffix_array@),
    ensures
        r@.len() == matching_terms(vocabulary@, vocab_suffix_array@, encode_utf8(query@)).len(),
        forall|k: int|
            0 <= k < r@.len() ==> #[trigger] r@[k] == vocabulary@[matching_terms(
                vocabulary@,
                vocab_suffix_array@,
                encode_utf8(query@),
            )[k] as int],
{
    let ghost vocab = vocabulary@;
    let ghost sa = vocab_suffix_array@;
    let q = query.as_bytes();
    let ghost qb = q@;
    let mut matching: Vec<String> = Vec::new();
    if vocab_suffix_array.len() == 0 {
        return matching;
    }
    // Binary search for the first suffix not below the query
    let mut lo: usize = 0;
    let mut hi: usize = vocab_suffix_array.len();
    while lo < hi
        invariant
            lo <= hi <= sa.len(),
            vocab == vocabulary@,
            sa == vocab_suffix_array@,
            qb == q@,
            suffix_array_ordered(vocab, sa),
            forall|k: int| 0 <= k < lo ==> lex_lt(entry_term_suffix(vocab, #[trigger] sa[k]), qb),
            forall|k: int| hi <= k < sa.len() ==> !lex_lt(entry_term_suffix(vocab, #[trigger] sa[k]), qb),
        decreases hi - lo,
    {
        let mid = lo + (hi - lo) / 2;
        let suffix = entry_suffix_bytes(vocabulary, &vocab_suffix_array[mid]);
        let below = match compare_bytes(suffix, q) {
            Comparison::Less => true,
            _ => false,
        };
        let ghost sm = entry_term_suffix(vocab, sa[mid as int]);
        if below {
            proof {
                assert forall|k: int| 0 <= k <= mid implies lex_lt(entry_term_suffix(vocab, #[trigger] sa[k]), qb) by {
                    if k < mid {
                        let sk = entry_term_suffix(vocab, sa[k]);
                        lemma_lex_total(sk, sm);
                        if lex_lt(sk, sm) {
                            lemma_lex_trans(sk, sm, qb);
                        }
                    }
                }
            }
            lo = mid + 1;
        } else {
            proof {
                assert forall|k: int| mid <= k < sa.len() implies !lex_lt(entry_term_suffix(vocab, #[trigger] sa[k]), qb) by {
                    if k > mid {
                        let sk = entry_term_suffix(vocab, sa[k]);
                        lemma_lex_total(sk, sm);
                        if lex_lt(sk, qb) && lex_lt(sm, sk) {
                            lemma_lex_trans(sm, sk, qb);
                        }
                    }
                }
            }
            hi = mid;
        }
    }
    proof {
        assert forall|j: int| 0 <= j < lo implies !starts_with(entry_term_suffix(vocab, #[trigger] sa[j]), qb) by {
            if starts_with(entry_term_suffix(vocab, sa[j]), qb) {
                lemma_prefix_not_below(entry_term_suffix(vocab, sa[j]), qb);
            }
        }
        lemma_matching_terms_head(vocab, sa, qb, lo as int);
    }
    // Collect each term whose suffix begins with the query, once
    let mut seen: HashSet<usize> = HashSet::new();
    let mut i: usize = lo;
    while i < vocab_suffix_array.len()
        invariant
            lo <= i <= sa.len(),
            vocab == vocabulary@,
            sa == vocab_suffix_array@,
            qb == q@,
            suffix_array_ordered(vocab, sa),
            forall|k: int| lo <= k < sa.len() ==> !lex_lt(entry_term_suffix(vocab, #[trigger] sa[k]), qb),
            forall|k: int| lo <= k < i ==> starts_with(entry_term_suffix(vocab, #[trigger] sa[k]), qb),
            matching@.len() == matching_terms(vocab, sa.take(i as int), qb).len(),
            forall|k: int|
                0 <= k < matching@.len() ==> #[trigger] matching@[k] == vocab[matching_terms(
                    vocab,
                    sa.take(i as int),
                    qb,
                )[k] as int],
            forall|t: usize| seen@.contains(t) <==> matching_terms(vocab, sa.take(i as int), qb).contains(t),
            forall|k: int|
                0 <= k < matching_terms(vocab, sa.take(i as int), qb).len() ==> #[trigger] matching_terms(
                    vocab,
                    sa.take(i as int),
                    qb,
                )[k] < vocab.len(),
        ensures
            lo <= i <= sa.len(),
            forall|k: int| i <= k < sa.len() ==> !starts_with(entry_term_suffix(vocab, #[trigger] sa[k]), qb),
            matching@.len() == matching_terms(vocab, sa.take(i as int), qb).len(),
            forall|k: int|
                0 <= k < matching@.len() ==> #[trigger] matching@[k] == vocab[matching_terms(
                    vocab,
                    sa.take(i as int),
                    qb,
                )[k] as int],
        decreases sa.len() - i,
    {
        let e = &vocab_suffix_array[i];
        let suffix = entry_suffix_bytes(vocabulary, e);
        if !bytes_start_with(suffix, q) {
            proof {
                assert forall|k: int| i <= k < sa.len() implies !starts_with(entry_term_suffix(vocab, #[trigger] sa[k]), qb) by {
                    if k > i {
                        lemma_past_prefix_run(entry_term_suffix(vocab, sa[i as int]), qb, entry_term_suffix(vocab, sa[k]));
                    }
                }
            }
            break;
        }
        let ghost prev = matching_terms(vocab, sa.take(i as int), qb);
        assert(sa.take(i + 1).drop_last() =~= sa.take(i as int));
        assert(sa.take(i + 1).last() == *e);
        if !seen.contains(&e.term_idx) {
            seen.insert(e.term_idx);
            matching.push(vocabulary[e.term_idx].clone());
            proof {
                assert(!prev.contains(e.term_idx));
                let now = matching_terms(vocab, sa.take(i + 1), qb);
                assert(now == prev.push(e.term_idx));
                assert forall|t: usize| seen@.contains(t) <==> now.contains(t) by {
                    if t == e.term_idx {
                        assert(now[prev.len() as int] == t);
                    }
                    if now.contains(t) && t != e.term_idx {
                        let k = choose|k: int| 0 <= k < now.len() && now[k] == t;
                        assert(prev[k] == t);
                    }
                    if prev.contains(t) {
                        let k = choose|k: int| 0 <= k < prev.len() && prev[k] == t;
                        assert(now[k] == t);
                    }
                }
            }
        } else {
            proof {
                assert(prev.contains(e.term_idx));
            }
        }
        i = i + 1;
    }
    proof {
        lemma_matching_terms_tail(vocab, sa, qb, i as int);
    }
    matching
}

/// The terms within `max_distance` edits of the query, in vocabulary order.
pub open spec fn fuzzy_terms(vocab: Seq<String>, q: Seq<char>, max_distance: nat) -> Seq<String>
    decreases vocab.len(),
{
    if vocab.len() == 0 {
        Seq::empty()
    } else {
        let prev = fuzzy_terms(vocab.drop_last(), q, max_distance);
        if edit_distance(q, vocab.last()@) <= max_distance {
            prev.push(vocab.last())
        } else {
            prev
        }
    }
}

/// A term is among the fuzzy matches exactly when it is a vocabulary term
/// within `max_distance` edits of the query.
pub proof fn lemma_fuzzy_terms_members(vocab: Seq<String>, q: Seq<char>, max_distance: nat, w: String)
    ensures
        fuzzy_terms(vocab, q, max_distance).contains(w) <==> (vocab.contains(w) && edit_distance(q, w@) <= max_distance),
    decreases vocab.len(),
{
    if vocab.len() > 0 {
        let rest = vocab.drop_last();
        let prev = fuzzy_terms(rest, q, max_distance);
        lemma_fuzzy_terms_members(rest, q, max_distance, w);
        assert(vocab =~= rest.push(vocab.last()));
        if vocab.contains(w) && edit_distance(q, w@) <= max_distance {
            let k = choose|k: int| 0 <= k < vocab.len() && vocab[k] == w;
            if k < vocab.len() - 1 {
                assert(rest[k] == w);
                let j = choose|j: int| 0 <= j < prev.len() && prev[j] == w;
                if edit_distance(q, vocab.last()@) <= max_distance {
                    assert(prev.push(vocab.last())[j] == w);
                }
            } else {
                assert(prev.push(vocab.last())[prev.len() as int] == w);
            }
        }
        if fuzzy_terms(vocab, q, max_distance).contains(w) {
            let r = fuzzy_terms(vocab, q, max_distance);
            let j = choose|j: int| 0 <= j < r.len() && r[j] == w;
            if j < prev.len() {
                assert(prev[j] == w);
                assert(prev.contains(w));
                let k = choose|k: int| 0 <= k < rest.len() && rest[k] == w;
                assert(vocab[k] == w);
            } else {
                assert(w == vocab.last());
                assert(vocab[vocab.len() - 1] == w);
            }
        }
    }
}

/// The terms within `max_distance` edits of the query; the difference in
/// length, a lower bound on the distance, rules most terms out first.
pub fn find_fuzzy_matches(vocabulary: &[String], query: &str, max_distance: u32) -> (r: Vec<String>)
    requires
        query@.len() < usize::MAX,
        forall|i: int| 0 <= i < vocabulary@.len() ==> (#[trigger] vocabulary@[i])@.len() < usize::MAX,
    ensures
        r@ == fuzzy_terms(vocabulary@, query@, max_distance as nat),
{
    let query_len = chars_of(query).len();
    let mut out: Vec<String> = Vec::new();
    let mut i: usize = 0;
    while i < vocabulary.len()
        invariant
            i <= vocabulary@.len(),
            query_len == query@.len(),
            query@.len() < usize::MAX,
            forall|k: int| 0 <= k < vocabulary@.len() ==> (#[trigger] vocabulary@[k])@.len() < usize::MAX,
            out@ == fuzzy_terms(vocabulary@.take(i as int), query@, max_distance as nat),
        decreases vocabulary@.len() - i,
    {
        let term = &vocabulary[i];
        let term_len = chars_of(term.as_str()).len();
        let len_diff = if query_len >= term_len {
            query_len - term_len
        } else {
            term_len - query_len
        };
        let keep = if len_diff > max_distance as usize {
            proof {
                lemma_length_difference_bound(query@, term@);
            }
            false
        } else {
            levenshtein_within(query, term.as_str(), max_distance as usize)
        };
        assert(vocabulary@.take(i + 1).drop_last() =~= vocabulary@.take(i as int));
        if keep {
            out.push(term.clone());
        }
        i = i + 1;
    }
    assert(vocabulary@.take(i as int) =~= vocabulary@);
    out
}

} // verus!
