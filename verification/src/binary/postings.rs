//! Postings list encoding/decoding and skip lists.
//!
//! For each term, the documents that contain it. Entries are stored sorted by
//! score (highest first); scores are stored as deltas of `max_score - score`,
//! which grow along the list and so stay small.

use vstd::prelude::*;
use vstd::relations::{sorted_by, total_ordering};
use crate::error::FormatError;
use crate::binary::encoding::{
    decode_varint, decode_varint_at, encode_varint, spec_decode_varint, spec_varint,
    lemma_varint_roundtrip, lemma_subrange_skip, MAX_POSTING_SIZE,
    concat_map, lemma_concat_map_push, lemma_concat_map_front, lemma_varint_len,
};
use crate::binary::header::{BLOCK_SIZE, MAX_SKIP_LEVELS, SKIP_INTERVAL, SKIP_LIST_THRESHOLD};

verus! {

// ============================================================================
// POSTING ENTRY
// ============================================================================

/// Posting entry with doc_id, section_id index, heading level, and score
#[derive(Debug, Clone, Copy, PartialEq, Eq, Structural)]
pub struct PostingEntry {
    pub doc_id: u32,
    /// Index into section table (0 = no section_id, 1+ = table index + 1)
    pub section_idx: u32,
    /// Heading level (0=title, 2=h2, 3=h3, ...) - used for bucketed ranking
    pub heading_level: u8,
    /// Pre-computed score (higher = better)
    pub score: u32,
}

// ============================================================================
// RANK ORDER
// ============================================================================

/// The sort key of the entry at position `i`: score descending, then doc_id
/// ascending, then original position (so equal entries keep their order),
/// then the remaining fields.
pub open spec fn rank_key(e: PostingEntry, i: int) -> (u32, u32, u64, u32, u8) {
    ((u32::MAX - e.score) as u32, e.doc_id, i as u64, e.section_idx, e.heading_level)
}

/// Lexicographic order on rank keys (the order of Rust tuples).
pub open spec fn rank_key_le(a: (u32, u32, u64, u32, u8), b: (u32, u32, u64, u32, u8)) -> bool {
    a.0 < b.0 || (a.0 == b.0 && (a.1 < b.1 || (a.1 == b.1 && (a.2 < b.2 || (a.2 == b.2
        && (a.3 < b.3 || (a.3 == b.3 && a.4 <= b.4)))))))
}

/// The entry a rank key stands for.
pub open spec fn key_entry(k: (u32, u32, u64, u32, u8)) -> PostingEntry {
    PostingEntry { doc_id: k.1, section_idx: k.3, heading_level: k.4, score: (u32::MAX - k.0) as u32 }
}

/// The rank keys of `entries`, in rank order.
pub open spec fn spec_rank_keys(entries: Seq<PostingEntry>) -> Seq<(u32, u32, u64, u32, u8)> {
    Seq::new(entries.len(), |i: int| rank_key(entries[i], i)).sort_by(|a, b| rank_key_le(a, b))
}

/// `entries` in rank order: highest score first, ties by doc_id, then by
/// original position.
pub open spec fn spec_rank_order(entries: Seq<PostingEntry>) -> Seq<PostingEntry> {
    spec_rank_keys(entries).map_values(|k: (u32, u32, u64, u32, u8)| key_entry(k))
}

proof fn lemma_rank_key_le_total()
    ensures
        total_ordering(|a: (u32, u32, u64, u32, u8), b: (u32, u32, u64, u32, u8)| rank_key_le(a, b)),
{
}

/// Sorts the keys in place.
///
/// Calls `slice::sort` on tuples of integers. Trusted: afterwards the keys
/// are the same multiset, in lexicographic (tuple) order.
#[verifier::external_body]
fn sort_rank_keys(keys: &mut Vec<(u32, u32, u64, u32, u8)>)
    ensures
        final(keys)@.to_multiset() == old(keys)@.to_multiset(),
        sorted_by(final(keys)@, |a: (u32, u32, u64, u32, u8), b: (u32, u32, u64, u32, u8)| rank_key_le(a, b)),
{
    keys.sort();
}

/// The rank-ordered copy of `entries`.
fn rank_order(entries: &[PostingEntry]) -> (r: Vec<PostingEntry>)
    requires
        entries@.len() <= u64::MAX,
    ensures
        r@ == spec_rank_order(entries@),
{
    let mut keys: Vec<(u32, u32, u64, u32, u8)> = Vec::new();
    let mut i: usize = 0;
    while i < entries.len()
        invariant
            i <= entries@.len(),
            keys@ == Seq::new(i as nat, |j: int| rank_key(entries@[j], j)),
        decreases entries@.len() - i,
    {
        let e = entries[i];
        keys.push((u32::MAX - e.score, e.doc_id, i as u64, e.section_idx, e.heading_level));
        assert(keys@ =~= Seq::new(i as nat + 1, |j: int| rank_key(entries@[j], j)));
        i = i + 1;
    }
    let ghost unsorted = keys@;
    sort_rank_keys(&mut keys);
    proof {
        let leq = |a: (u32, u32, u64, u32, u8), b: (u32, u32, u64, u32, u8)| rank_key_le(a, b);
        lemma_rank_key_le_total();
        unsorted.lemma_sort_by_ensures(leq);
        vstd::seq_lib::lemma_sorted_unique(keys@, unsorted.sort_by(leq), leq);
        assert(keys@ == spec_rank_keys(entries@));
    }
    let mut out: Vec<PostingEntry> = Vec::new();
    let mut k: usize = 0;
    while k < keys.len()
        invariant
            k <= keys@.len(),
            out@ == keys@.take(k as int).map_values(|key: (u32, u32, u64, u32, u8)| key_entry(key)),
        decreases keys@.len() - k,
    {
        let key = keys[k];
        out.push(PostingEntry { doc_id: key.1, section_idx: key.3, heading_level: key.4, score: u32::MAX - key.0 });
        assert(out@ =~= keys@.take(k as int + 1).map_values(|key: (u32, u32, u64, u32, u8)| key_entry(key)));
        k = k + 1;
    }
    assert(keys@.take(keys@.len() as int) =~= keys@);
    out
}

// ============================================================================
// POSTINGS ENCODING
// ============================================================================

/// The stored, transformed score: distance below the list's maximum.
pub open spec fn transformed(e: PostingEntry, max: u32) -> int {
    max - e.score
}

/// One stored entry: doc_id, section_idx, heading level byte, score delta.
pub open spec fn spec_posting_bytes(e: PostingEntry, max: u32, prev: int) -> Seq<u8> {
    spec_varint(e.doc_id as u64) + spec_varint(e.section_idx as u64) + seq![e.heading_level]
        + spec_varint((transformed(e, max) - prev) as u64)
}

/// The stored entries, the transformed score before the first being `prev`.
pub open spec fn spec_postings_body(s: Seq<PostingEntry>, max: u32, prev: int) -> Seq<u8>
    decreases s.len(),
{
    if s.len() == 0 {
        Seq::<u8>::empty()
    } else {
        spec_posting_bytes(s[0], max, prev) + spec_postings_body(s.drop_first(), max, transformed(s[0], max))
    }
}

/// The encoded list of already rank-ordered entries.
pub open spec fn spec_encode_ranked(s: Seq<PostingEntry>) -> Seq<u8> {
    if s.len() == 0 {
        spec_varint(0)
    } else {
        spec_varint(s.len() as u64) + spec_varint(s[0].score as u64) + spec_postings_body(s, s[0].score, 0)
    }
}

/// The encoded posting list: its entries in rank order, then stored.
pub open spec fn spec_encode_postings(entries: Seq<PostingEntry>) -> Seq<u8> {
    spec_encode_ranked(spec_rank_order(entries))
}

proof fn lemma_postings_body_push(s: Seq<PostingEntry>, x: PostingEntry, max: u32, prev: int)
    ensures
        spec_postings_body(s.push(x), max, prev) == spec_postings_body(s, max, prev)
            + spec_posting_bytes(x, max, if s.len() == 0 { prev } else { transformed(s.last(), max) }),
    decreases s.len(),
{
    if s.len() == 0 {
        assert(s.push(x).drop_first() =~= Seq::<PostingEntry>::empty());
        assert(s.push(x)[0] == x);
        assert(spec_postings_body(Seq::<PostingEntry>::empty(), max, transformed(x, max)) =~= Seq::<u8>::empty());
        assert(spec_postings_body(s, max, prev) =~= Seq::<u8>::empty());
        assert(spec_postings_body(s.push(x), max, prev) =~= spec_posting_bytes(x, max, prev));
    } else {
        assert(s.push(x).drop_first() =~= s.drop_first().push(x));
        assert(s.push(x)[0] == s[0]);
        lemma_postings_body_push(s.drop_first(), x, max, transformed(s[0], max));
        if s.len() > 1 {
            assert(s.drop_first().last() == s.last());
        }
        assert(spec_postings_body(s.push(x), max, prev) =~= spec_postings_body(s, max, prev)
            + spec_posting_bytes(x, max, if s.len() == 0 { prev } else { transformed(s.last(), max) }));
    }
}

/// Whether a list is in descending score order.
pub open spec fn scores_descending(s: Seq<PostingEntry>) -> bool {
    forall|i: int, j: int| 0 <= i <= j < s.len() ==> s[i].score >= s[j].score
}

proof fn lemma_rank_order_props(entries: Seq<PostingEntry>)
    requires
        entries.len() <= u64::MAX,
    ensures
        spec_rank_order(entries).len() == entries.len(),
        scores_descending(spec_rank_order(entries)),
        spec_rank_order(entries).to_multiset() == entries.to_multiset(),
{
    let leq = |a: (u32, u32, u64, u32, u8), b: (u32, u32, u64, u32, u8)| rank_key_le(a, b);
    let keys = Seq::new(entries.len(), |i: int| rank_key(entries[i], i));
    lemma_rank_key_le_total();
    keys.lemma_sort_by_ensures(leq);
    let sk = keys.sort_by(leq);
    assert(sk.len() == keys.len()) by {
        vstd::seq_lib::to_multiset_len(sk);
        vstd::seq_lib::to_multiset_len(keys);
    }
    let r = spec_rank_order(entries);
    assert forall|i: int, j: int| 0 <= i <= j < r.len() implies r[i].score >= r[j].score by {
        if i < j {
            assert(leq(sk[i], sk[j]));
        }
    }
    lemma_key_entries_multiset(entries);
}

/// Mapping two sequences with the same elements gives sequences with the
/// same elements.
pub proof fn lemma_map_multiset<A, B>(a: Seq<A>, b: Seq<A>, f: spec_fn(A) -> B)
    requires
        a.to_multiset() == b.to_multiset(),
    ensures
        a.map_values(f).to_multiset() == b.map_values(f).to_multiset(),
    decreases a.len(),
{
    broadcast use vstd::seq_lib::group_to_multiset_ensures;
    broadcast use vstd::multiset::group_multiset_axioms;
    vstd::seq_lib::to_multiset_len(a);
    vstd::seq_lib::to_multiset_len(b);
    if a.len() == 0 {
        assert(b.len() == 0);
        assert(a.map_values(f) =~= Seq::<B>::empty());
        assert(b.map_values(f) =~= Seq::<B>::empty());
    } else {
        let x = a.last();
        let a1 = a.drop_last();
        assert(a1.push(x) =~= a);
        assert(a.to_multiset() == a1.to_multiset().insert(x));
        assert(a.to_multiset().count(x) > 0);
        assert(b.contains(x));
        let i = choose|i: int| 0 <= i < b.len() && b[i] == x;
        let b1 = b.remove(i);
        vstd::seq_lib::to_multiset_remove(b, i);
        assert(b1.to_multiset() =~= a1.to_multiset());
        lemma_map_multiset(a1, b1, f);
        assert(a.map_values(f) =~= a1.map_values(f).push(f(x)));
        vstd::seq_lib::to_multiset_remove(b.map_values(f), i);
        assert(b.map_values(f).remove(i) =~= b1.map_values(f));
        assert(b.map_values(f).to_multiset() =~= b1.map_values(f).to_multiset().insert(f(x))) by {
            assert(b.map_values(f)[i] == f(x));
            assert(b.map_values(f).to_multiset().count(f(x)) > 0) by {
                assert(b.map_values(f).contains(f(x)));
            }
        }
    }
}

proof fn lemma_key_entries_multiset(entries: Seq<PostingEntry>)
    requires
        entries.len() <= u64::MAX,
    ensures
        spec_rank_order(entries).to_multiset() == entries.to_multiset(),
{
    let leq = |a: (u32, u32, u64, u32, u8), b: (u32, u32, u64, u32, u8)| rank_key_le(a, b);
    let keys = Seq::new(entries.len(), |i: int| rank_key(entries[i], i));
    lemma_rank_key_le_total();
    keys.lemma_sort_by_ensures(leq);
    let sk = keys.sort_by(leq);
    let f = |k: (u32, u32, u64, u32, u8)| key_entry(k);
    lemma_map_multiset(keys, sk, f);
    assert(keys.map_values(f) =~= entries) by {
        assert forall|i: int| 0 <= i < entries.len() implies keys.map_values(f)[i] == entries[i] by {
            let e = entries[i];
            assert(key_entry(rank_key(e, i)) == e);
        }
    }
}

/// Encode posting list with delta+varint compression
///
/// Format:
/// - doc_freq: varint
/// - max_score: varint
/// - for each entry, highest score first: doc_id varint, section_idx varint,
///   heading_level byte, varint of the growth of (max_score - score)
pub fn encode_postings(entries: &[PostingEntry], buf: &mut Vec<u8>)
    requires
        entries@.len() <= u64::MAX,
    ensures
        final(buf)@ == old(buf)@ + spec_encode_postings(entries@),
{
    let doc_freq = entries.len();
    encode_varint(doc_freq as u64, buf);
    if doc_freq == 0 {
        proof {
            let r = spec_rank_order(entries@);
            lemma_rank_order_props(entries@);
            assert(r.len() == 0);
        }
        return;
    }
    let sorted = rank_order(entries);
    proof { lemma_rank_order_props(entries@); }
    let max_score = sorted[0].score;
    encode_varint(max_score as u64, buf);
    let ghost s = sorted@;
    let ghost start = buf@;
    let mut prev: u32 = 0;
    let mut i: usize = 0;
    while i < sorted.len()
        invariant
            s == sorted@,
            s.len() == entries@.len(),
            scores_descending(s),
            max_score == s[0].score,
            i <= s.len(),
            i == 0 ==> prev == 0,
            i > 0 ==> prev == transformed(s[i - 1], max_score),
            prev <= max_score,
            buf@ == start + spec_postings_body(s.take(i as int), max_score, 0),
        decreases s.len() - i,
    {
        let e = sorted[i];
        encode_varint(e.doc_id as u64, buf);
        encode_varint(e.section_idx as u64, buf);
        buf.push(e.heading_level);
        let t = max_score - e.score;
        assert(i > 0 ==> s[i - 1].score >= e.score);
        let delta = t - prev;
        encode_varint(delta as u64, buf);
        proof {
            assert(s.take(i as int + 1) =~= s.take(i as int).push(e));
            lemma_postings_body_push(s.take(i as int), e, max_score, 0);
            if i > 0 {
                assert(s.take(i as int).last() == s[i - 1]);
            }
            assert(buf@ =~= start + spec_postings_body(s.take(i as int + 1), max_score, 0));
        }
        prev = t;
        i = i + 1;
    }
    assert(s.take(s.len() as int) =~= s);
}

// ============================================================================
// POSTINGS DECODING
// ============================================================================

/// Reading `k` stored entries starting at `pos`, with the list's maximum
/// `max` and the transformed score before them `prev`.
pub open spec fn spec_parse_postings(bytes: Seq<u8>, pos: nat, k: nat, max: u32, prev: u32) -> Result<(Seq<PostingEntry>, nat), FormatError>
    decreases k,
{
    if k == 0 {
        Ok((Seq::<PostingEntry>::empty(), pos))
    } else if pos >= bytes.len() {
        Err(FormatError::TruncatedPostingEntry)
    } else {
        match spec_decode_varint(bytes.subrange(pos as int, bytes.len() as int)) {
            Err(e) => Err(e),
            Ok((doc_id, c1)) => {
                let p1 = pos + c1;
                match spec_decode_varint(bytes.subrange(p1 as int, bytes.len() as int)) {
                    Err(e) => Err(e),
                    Ok((section_idx, c2)) => {
                        let p2 = p1 + c2;
                        if p2 >= bytes.len() {
                            Err(FormatError::TruncatedHeadingLevel)
                        } else {
                            match spec_decode_varint(bytes.subrange(p2 as int + 1, bytes.len() as int)) {
                                Err(e) => Err(e),
                                Ok((delta, c3)) => {
                                    let t = prev + (delta as u32);
                                    if t > max {
                                        Err(FormatError::ScoreOutOfRange)
                                    } else {
                                        let e = PostingEntry {
                                            doc_id: doc_id as u32,
                                            section_idx: section_idx as u32,
                                            heading_level: bytes[p2 as int],
                                            score: (max - t) as u32,
                                        };
                                        match spec_parse_postings(bytes, p2 + 1 + c3, (k - 1) as nat, max, t as u32) {
                                            Err(e) => Err(e),
                                            Ok((rest, q)) => Ok((seq![e] + rest, q)),
                                        }
                                    }
                                },
                            }
                        }
                    },
                }
            },
        }
    }
}

/// What decoding a posting list yields: its entries (in stored order) and
/// the bytes consumed.
pub open spec fn spec_decode_postings(bytes: Seq<u8>) -> Result<(Seq<PostingEntry>, nat), FormatError> {
    match spec_decode_varint(bytes) {
        Err(e) => Err(e),
        Ok((doc_freq, p)) => if doc_freq > MAX_POSTING_SIZE {
            Err(FormatError::PostingListTooLarge)
        } else if doc_freq == 0 {
            Ok((Seq::<PostingEntry>::empty(), p))
        } else {
            match spec_decode_varint(bytes.subrange(p as int, bytes.len() as int)) {
                Err(e) => Err(e),
                Ok((max, c)) => spec_parse_postings(bytes, p + c, doc_freq as nat, #[verifier::truncate] (max as u32), 0),
            }
        }
    }
}

/// Decode posting list with delta+varint compression
///
/// Entries come back in stored order (score descending). A score delta that
/// would take a score below zero is rejected.
pub fn decode_postings(bytes: &[u8]) -> (r: Result<(Vec<PostingEntry>, usize), FormatError>)
    ensures
        match spec_decode_postings(bytes@) {
            Ok((entries, n)) => r matches Ok((v, m)) && v@ == entries && m == n,
            Err(e) => r == Err::<(Vec<PostingEntry>, usize), FormatError>(e),
        },
        r matches Ok((_, m)) ==> m <= bytes@.len(),
{
    let (doc_freq64, mut pos) = match decode_varint(bytes) {
        Ok(x) => x,
        Err(e) => return Err(e),
    };
    if doc_freq64 > MAX_POSTING_SIZE as u64 {
        return Err(FormatError::PostingListTooLarge);
    }
    let doc_freq = doc_freq64 as usize;
    if doc_freq == 0 {
        return Ok((Vec::new(), pos));
    }
    let (max64, c) = match decode_varint_at(bytes, pos) {
        Ok(x) => x,
        Err(e) => return Err(e),
    };
    pos = pos + c;
    let max_score = #[verifier::truncate] (max64 as u32);
    let ghost total = spec_parse_postings(bytes@, pos as nat, doc_freq as nat, max_score, 0);
    assert(total == spec_decode_postings(bytes@));
    let mut entries: Vec<PostingEntry> = Vec::new();
    let mut prev: u32 = 0;
    let mut i: usize = 0;
    while i < doc_freq
        invariant
            i <= doc_freq,
            pos <= bytes@.len(),
            prev <= max_score,
            total == spec_decode_postings(bytes@),
            match spec_parse_postings(bytes@, pos as nat, (doc_freq - i) as nat, max_score, prev) {
                Ok((rest, q)) => total == Ok::<(Seq<PostingEntry>, nat), FormatError>((entries@ + rest, q)),
                Err(e) => total == Err::<(Seq<PostingEntry>, nat), FormatError>(e),
            },
        decreases doc_freq - i,
    {
        if pos >= bytes.len() {
            return Err(FormatError::TruncatedPostingEntry);
        }
        let (doc_id, c1) = match decode_varint_at(bytes, pos) {
            Ok(x) => x,
            Err(e) => return Err(e),
        };
        let p1 = pos + c1;
        let (section_idx, c2) = match decode_varint_at(bytes, p1) {
            Ok(x) => x,
            Err(e) => return Err(e),
        };
        let p2 = p1 + c2;
        if p2 >= bytes.len() {
            return Err(FormatError::TruncatedHeadingLevel);
        }
        let heading_level = bytes[p2];
        let (delta, c3) = match decode_varint_at(bytes, p2 + 1) {
            Ok(x) => x,
            Err(e) => return Err(e),
        };
        let d = #[verifier::truncate] (delta as u32);
        if d > max_score - prev {
            return Err(FormatError::ScoreOutOfRange);
        }
        let t = prev + d;
        let e = PostingEntry {
            doc_id: #[verifier::truncate] (doc_id as u32),
            section_idx: #[verifier::truncate] (section_idx as u32),
            heading_level,
            score: max_score - t,
        };
        let ghost old_entries = entries@;
        entries.push(e);
        proof {
            match spec_parse_postings(bytes@, (p2 + 1 + c3) as nat, (doc_freq - i - 1) as nat, max_score, t) {
                Ok((rest, q)) => {
                    assert(old_entries + (seq![e] + rest) =~= old_entries.push(e) + rest);
                },
                Err(e) => {},
            }
        }
        pos = p2 + 1 + c3;
        prev = t;
        i = i + 1;
    }
    assert(entries@ + Seq::<PostingEntry>::empty() =~= entries@);
    Ok((entries, pos))
}


proof fn lemma_parse_postings_roundtrip(bytes: Seq<u8>, pos: nat, s: Seq<PostingEntry>, max: u32, prev: u32)
    requires
        scores_descending(s),
        forall|i: int| 0 <= i < s.len() ==> s[i].score <= max,
        s.len() > 0 ==> prev <= transformed(s[0], max),
        pos + spec_postings_body(s, max, prev as int).len() <= bytes.len(),
        bytes.subrange(pos as int, pos as int + spec_postings_body(s, max, prev as int).len())
            == spec_postings_body(s, max, prev as int),
    ensures
        spec_parse_postings(bytes, pos, s.len(), max, prev)
            == Ok::<(Seq<PostingEntry>, nat), FormatError>((s, pos + spec_postings_body(s, max, prev as int).len())),
    decreases s.len(),
{
    let body = spec_postings_body(s, max, prev as int);
    if s.len() == 0 {
        assert(s =~= Seq::<PostingEntry>::empty());
    } else {
        let e = s[0];
        let t = transformed(e, max);
        let v1 = spec_varint(e.doc_id as u64);
        let v2 = spec_varint(e.section_idx as u64);
        let v3 = spec_varint((t - prev) as u64);
        let tail = spec_postings_body(s.drop_first(), max, t);
        let after = bytes.subrange(pos as int + body.len(), bytes.len() as int);
        assert(body == v1 + v2 + seq![e.heading_level] + v3 + tail);
        assert(bytes.subrange(pos as int, bytes.len() as int) =~= body + after) by {
            assert forall|j: int| 0 <= j < body.len() implies bytes[pos + j] == body[j] by {
                assert(bytes.subrange(pos as int, pos as int + body.len())[j] == body[j]);
            }
        }
        assert(body + after =~= v1 + (v2 + seq![e.heading_level] + v3 + tail + after));
        lemma_varint_roundtrip(e.doc_id as u64, v2 + seq![e.heading_level] + v3 + tail + after);
        lemma_subrange_skip(bytes, pos as int, v1, v2 + seq![e.heading_level] + v3 + tail + after);
        let p1 = pos + v1.len();
        assert(v2 + seq![e.heading_level] + v3 + tail + after =~= v2 + (seq![e.heading_level] + v3 + tail + after));
        lemma_varint_roundtrip(e.section_idx as u64, seq![e.heading_level] + v3 + tail + after);
        lemma_subrange_skip(bytes, p1 as int, v2, seq![e.heading_level] + v3 + tail + after);
        let p2 = p1 + v2.len();
        assert(bytes[p2 as int] == e.heading_level) by {
            assert(bytes.subrange(p2 as int, bytes.len() as int)[0] == e.heading_level);
        }
        assert(seq![e.heading_level] + v3 + tail + after =~= seq![e.heading_level] + (v3 + (tail + after)));
        lemma_subrange_skip(bytes, p2 as int, seq![e.heading_level], v3 + (tail + after));
        lemma_varint_roundtrip((t - prev) as u64, tail + after);
        lemma_subrange_skip(bytes, p2 as int + 1, v3, tail + after);
        let p3 = p2 + 1 + v3.len();
        assert(((t - prev) as u64) as u32 == t - prev);
        assert(bytes.subrange(p3 as int, p3 as int + tail.len()) =~= tail) by {
            assert forall|j: int| 0 <= j < tail.len() implies bytes.subrange(p3 as int, p3 as int + tail.len())[j] == tail[j] by {
                assert(bytes.subrange(p3 as int, bytes.len() as int)[j] == (tail + after)[j]);
            }
        }
        let rest = s.drop_first();
        assert forall|i: int, j: int| 0 <= i <= j < rest.len() implies rest[i].score >= rest[j].score by {
            assert(rest[i] == s[i + 1] && rest[j] == s[j + 1]);
        }
        if rest.len() > 0 {
            assert(rest[0] == s[1]);
        }
        lemma_parse_postings_roundtrip(bytes, p3 as nat, rest, max, t as u32);
        assert(seq![e] + rest =~= s);
    }
}

/// Decoding the encoding of an already rank-ordered list gives it back.
pub proof fn lemma_encode_ranked_roundtrip(s: Seq<PostingEntry>, rest: Seq<u8>)
    requires
        s.len() <= MAX_POSTING_SIZE,
        scores_descending(s),
    ensures
        spec_decode_postings(spec_encode_ranked(s) + rest)
            == Ok::<(Seq<PostingEntry>, nat), FormatError>((s, spec_encode_ranked(s).len())),
{
    let enc = spec_encode_ranked(s);
    let b = enc + rest;
    if s.len() == 0 {
        assert(s =~= Seq::<PostingEntry>::empty());
        lemma_varint_roundtrip(0, rest);
    } else {
        let max = s[0].score;
        let v0 = spec_varint(s.len() as u64);
        let vm = spec_varint(max as u64);
        let body = spec_postings_body(s, max, 0);
        assert(b =~= v0 + (vm + body + rest));
        lemma_varint_roundtrip(s.len() as u64, vm + body + rest);
        assert((s.len() as u64) as nat == s.len());
        assert(b.subrange(0, b.len() as int) =~= b);
        lemma_subrange_skip(b, 0, v0, vm + body + rest);
        assert(vm + body + rest =~= vm + (body + rest));
        lemma_varint_roundtrip(max as u64, body + rest);
        let p = v0.len() + vm.len();
        assert(b.subrange(p as int, p as int + body.len()) =~= body);
        assert forall|i: int| 0 <= i < s.len() implies s[i].score <= max by {}
        lemma_parse_postings_roundtrip(b, p as nat, s, max, 0);
    }
}

/// Decoding an encoded posting list, followed by any bytes, gives back its
/// entries in rank order (highest score first, ties by doc_id, then by
/// original position) and the length of the encoding, for lists within the
/// format's size limit.
pub proof fn lemma_postings_roundtrip(entries: Seq<PostingEntry>, rest: Seq<u8>)
    requires
        entries.len() <= MAX_POSTING_SIZE,
    ensures
        spec_decode_postings(spec_encode_postings(entries) + rest)
            == Ok::<(Seq<PostingEntry>, nat), FormatError>((spec_rank_order(entries), spec_encode_postings(entries).len())),
{
    lemma_rank_order_props(entries);
    lemma_encode_ranked_roundtrip(spec_rank_order(entries), rest);
}

/// The rank order holds exactly the given entries, highest score first.
pub proof fn lemma_rank_order_is_sorted_permutation(entries: Seq<PostingEntry>)
    requires
        entries.len() <= u64::MAX,
    ensures
        spec_rank_order(entries).to_multiset() == entries.to_multiset(),
        scores_descending(spec_rank_order(entries)),
{
    lemma_rank_order_props(entries);
}


// ============================================================================
// SKIP LIST
// ============================================================================

/// Skip list entry
#[derive(Debug, Clone, Copy, PartialEq, Eq, Structural)]
pub struct SkipEntry {
    pub doc_id: u32,
    pub block_offset: u32,
}

/// Skip list for a single term
#[derive(Debug, Clone)]
pub struct SkipList {
    /// Skip entries at each level (level 0 = finest granularity)
    pub levels: Vec<Vec<SkipEntry>>,
}

impl View for SkipList {
    type V = Seq<Seq<SkipEntry>>;

    open spec fn view(&self) -> Seq<Seq<SkipEntry>> {
        self.levels@.map_values(|l: Vec<SkipEntry>| l@)
    }
}

/// Level 0: one entry every SKIP_INTERVAL blocks of BLOCK_SIZE documents,
/// giving the first doc_id of that block and the block's index.
pub open spec fn spec_level0(doc_ids: Seq<u32>) -> Seq<SkipEntry> {
    let num_blocks = doc_ids.len() / 128;
    Seq::new(((num_blocks + 7) / 8) as nat, |k: int| SkipEntry {
        doc_id: doc_ids[k * 1024],
        block_offset: #[verifier::truncate] ((k * 8) as u32),
    })
}

/// Every SKIP_INTERVAL-th entry of a level.
pub open spec fn spec_thin(level: Seq<SkipEntry>) -> Seq<SkipEntry> {
    Seq::new(((level.len() + 7) / 8) as nat, |k: int| level[8 * k])
}

/// The levels grown from `level`: a coarser level is added while the last
/// one has at least SKIP_INTERVAL entries and the coarser one at least two.
pub open spec fn spec_levels_from(level: Seq<SkipEntry>) -> Seq<Seq<SkipEntry>>
    decreases level.len(),
{
    if level.len() >= 8 && spec_thin(level).len() >= 2 {
        seq![level] + spec_levels_from(spec_thin(level))
    } else {
        seq![level]
    }
}

/// The skip list built for `doc_ids`: none below SKIP_LIST_THRESHOLD entries.
pub open spec fn spec_build_skip_list(doc_ids: Seq<u32>) -> Option<Seq<Seq<SkipEntry>>> {
    if doc_ids.len() < 1024 {
        None
    } else {
        Some(spec_levels_from(spec_level0(doc_ids)))
    }
}

/// Scan one level left to right, taking the block offset of each entry
/// whose doc_id is at most `target`, stopping at the first that is larger.
pub open spec fn spec_scan_level(level: Seq<SkipEntry>, target: u32, acc: u32) -> u32
    decreases level.len(),
{
    if level.len() == 0 {
        acc
    } else if level[0].doc_id <= target {
        spec_scan_level(level.drop_first(), target, level[0].block_offset)
    } else {
        acc
    }
}

/// Scan the first `i` levels from the coarsest down, starting from `acc`.
pub open spec fn spec_skip_from(levels: Seq<Seq<SkipEntry>>, i: nat, target: u32, acc: u32) -> u32
    decreases i,
{
    if i == 0 || i > levels.len() {
        acc
    } else {
        spec_skip_from(levels, (i - 1) as nat, target, spec_scan_level(levels[i - 1], target, acc))
    }
}

/// The block `skip_to` finds for `target`.
pub open spec fn spec_skip_to(levels: Seq<Seq<SkipEntry>>, target: u32) -> u32 {
    spec_skip_from(levels, levels.len(), target, 0)
}

/// One skip entry as stored: doc_id and block offset as varints.
pub open spec fn spec_skip_entry_bytes(e: SkipEntry) -> Seq<u8> {
    spec_varint(e.doc_id as u64) + spec_varint(e.block_offset as u64)
}

/// One level as stored: its length, then its entries.
pub open spec fn spec_skip_level_bytes(level: Seq<SkipEntry>) -> Seq<u8> {
    spec_varint(level.len() as u64) + concat_map(level, |e: SkipEntry| spec_skip_entry_bytes(e))
}

/// The encoded skip list: the level count as one byte (truncated), then the levels.
pub open spec fn spec_encode_skip_list(levels: Seq<Seq<SkipEntry>>) -> Seq<u8> {
    seq![levels.len() as u8] + concat_map(levels, |l: Seq<SkipEntry>| spec_skip_level_bytes(l))
}

/// Reading `k` skip entries at `pos`.
pub open spec fn spec_parse_skip_entries(bytes: Seq<u8>, pos: nat, k: nat) -> Result<(Seq<SkipEntry>, nat), FormatError>
    decreases k,
{
    if k == 0 {
        Ok((Seq::<SkipEntry>::empty(), pos))
    } else if pos >= bytes.len() {
        Err(FormatError::TruncatedSkipEntry)
    } else {
        match spec_decode_varint(bytes.subrange(pos as int, bytes.len() as int)) {
            Err(e) => Err(e),
            Ok((doc_id, c1)) => {
                let p1 = pos + c1;
                if p1 >= bytes.len() {
                    Err(FormatError::TruncatedSkipOffset)
                } else {
                    match spec_decode_varint(bytes.subrange(p1 as int, bytes.len() as int)) {
                        Err(e) => Err(e),
                        Ok((off, c2)) => match spec_parse_skip_entries(bytes, p1 + c2, (k - 1) as nat) {
                            Err(e) => Err(e),
                            Ok((rest, q)) => Ok((seq![SkipEntry { doc_id: doc_id as u32, block_offset: off as u32 }] + rest, q)),
                        },
                    }
                }
            },
        }
    }
}

/// Reading `k` skip levels at `pos`.
pub open spec fn spec_parse_skip_levels(bytes: Seq<u8>, pos: nat, k: nat) -> Result<(Seq<Seq<SkipEntry>>, nat), FormatError>
    decreases k,
{
    if k == 0 {
        Ok((Seq::<Seq<SkipEntry>>::empty(), pos))
    } else if pos >= bytes.len() {
        Err(FormatError::TruncatedSkipLevel)
    } else {
        match spec_decode_varint(bytes.subrange(pos as int, bytes.len() as int)) {
            Err(e) => Err(e),
            Ok((count, c)) => match spec_parse_skip_entries(bytes, pos + c, count as nat) {
                Err(e) => Err(e),
                Ok((level, p)) => match spec_parse_skip_levels(bytes, p, (k - 1) as nat) {
                    Err(e) => Err(e),
                    Ok((rest, q)) => Ok((seq![level] + rest, q)),
                },
            },
        }
    }
}

/// What decoding a skip list yields: its levels and the bytes consumed.
pub open spec fn spec_decode_skip_list(bytes: Seq<u8>) -> Result<(Seq<Seq<SkipEntry>>, nat), FormatError> {
    if bytes.len() == 0 {
        Err(FormatError::EmptySkipList)
    } else if bytes[0] > 8 {
        Err(FormatError::TooManySkipLevels)
    } else {
        spec_parse_skip_levels(bytes, 1, bytes[0] as nat)
    }
}

proof fn lemma_skip_entries_roundtrip(bytes: Seq<u8>, pos: nat, level: Seq<SkipEntry>, tail: Seq<u8>)
    requires
        pos <= bytes.len(),
        bytes.subrange(pos as int, bytes.len() as int) == concat_map(level, |e: SkipEntry| spec_skip_entry_bytes(e)) + tail,
    ensures
        spec_parse_skip_entries(bytes, pos, level.len()) == Ok::<(Seq<SkipEntry>, nat), FormatError>(
            (level, pos + concat_map(level, |e: SkipEntry| spec_skip_entry_bytes(e)).len()),
        ),
    decreases level.len(),
{
    let fe = |e: SkipEntry| spec_skip_entry_bytes(e);
    if level.len() == 0 {
        assert(level =~= Seq::<SkipEntry>::empty());
    } else {
        lemma_concat_map_front(level, fe);
        let e = level[0];
        let v1 = spec_varint(e.doc_id as u64);
        let v2 = spec_varint(e.block_offset as u64);
        let later = concat_map(level.drop_first(), fe);
        lemma_varint_len(e.doc_id as u64);
        lemma_varint_len(e.block_offset as u64);
        assert(bytes.subrange(pos as int, bytes.len() as int) =~= v1 + (v2 + (later + tail)));
        lemma_varint_roundtrip(e.doc_id as u64, v2 + (later + tail));
        lemma_subrange_skip(bytes, pos as int, v1, v2 + (later + tail));
        let p1 = pos + v1.len();
        lemma_varint_roundtrip(e.block_offset as u64, later + tail);
        lemma_subrange_skip(bytes, p1 as int, v2, later + tail);
        let p2 = p1 + v2.len();
        lemma_skip_entries_roundtrip(bytes, p2, level.drop_first(), tail);
        assert(seq![SkipEntry { doc_id: (e.doc_id as u64) as u32, block_offset: (e.block_offset as u64) as u32 }]
            + level.drop_first() =~= level);
    }
}

proof fn lemma_skip_levels_roundtrip(bytes: Seq<u8>, pos: nat, levels: Seq<Seq<SkipEntry>>, tail: Seq<u8>)
    requires
        pos <= bytes.len(),
        forall|i: int| 0 <= i < levels.len() ==> (#[trigger] levels[i]).len() <= u64::MAX,
        bytes.subrange(pos as int, bytes.len() as int) == concat_map(levels, |l: Seq<SkipEntry>| spec_skip_level_bytes(l))
            + tail,
    ensures
        spec_parse_skip_levels(bytes, pos, levels.len()) == Ok::<(Seq<Seq<SkipEntry>>, nat), FormatError>(
            (levels, pos + concat_map(levels, |l: Seq<SkipEntry>| spec_skip_level_bytes(l)).len()),
        ),
    decreases levels.len(),
{
    let fl = |l: Seq<SkipEntry>| spec_skip_level_bytes(l);
    let fe = |e: SkipEntry| spec_skip_entry_bytes(e);
    if levels.len() == 0 {
        assert(levels =~= Seq::<Seq<SkipEntry>>::empty());
    } else {
        lemma_concat_map_front(levels, fl);
        let l = levels[0];
        let v = spec_varint(l.len() as u64);
        let entries = concat_map(l, fe);
        let later = concat_map(levels.drop_first(), fl);
        lemma_varint_len(l.len() as u64);
        assert(bytes.subrange(pos as int, bytes.len() as int) =~= v + (entries + (later + tail)));
        lemma_varint_roundtrip(l.len() as u64, entries + (later + tail));
        lemma_subrange_skip(bytes, pos as int, v, entries + (later + tail));
        let p1 = pos + v.len();
        lemma_skip_entries_roundtrip(bytes, p1, l, later + tail);
        assert(bytes.subrange(p1 as int, bytes.len() as int) =~= entries + (later + tail));
        lemma_subrange_skip(bytes, p1 as int, entries, later + tail);
        let p2 = p1 + entries.len();
        assert forall|i: int| 0 <= i < levels.drop_first().len() implies (#[trigger] levels.drop_first()[i]).len()
            <= u64::MAX by {
            assert(levels.drop_first()[i] == levels[i + 1]);
        }
        lemma_skip_levels_roundtrip(bytes, p2, levels.drop_first(), tail);
        assert(seq![l] + levels.drop_first() =~= levels);
    }
}

/// Decoding an encoded skip list, followed by anything, gives back its
/// levels and consumes exactly the encoded bytes.
pub proof fn lemma_skip_list_roundtrip(levels: Seq<Seq<SkipEntry>>, rest: Seq<u8>)
    requires
        levels.len() <= MAX_SKIP_LEVELS,
        forall|i: int| 0 <= i < levels.len() ==> (#[trigger] levels[i]).len() <= u64::MAX,
    ensures
        spec_decode_skip_list(spec_encode_skip_list(levels) + rest) == Ok::<(Seq<Seq<SkipEntry>>, nat), FormatError>(
            (levels, spec_encode_skip_list(levels).len()),
        ),
{
    let fl = |l: Seq<SkipEntry>| spec_skip_level_bytes(l);
    let enc = spec_encode_skip_list(levels);
    let body = concat_map(levels, fl);
    let bytes = enc + rest;
    assert(bytes[0] == levels.len() as u8);
    assert(bytes.subrange(1, bytes.len() as int) =~= body + rest);
    lemma_skip_levels_roundtrip(bytes, 1, levels, rest);
}

proof fn lemma_thin_shorter(level: Seq<SkipEntry>)
    requires
        level.len() >= 8,
    ensures
        spec_thin(level).len() < level.len(),
{
}

/// Every SKIP_INTERVAL-th entry of `level`.
fn thin_level(level: &Vec<SkipEntry>) -> (r: Vec<SkipEntry>)
    ensures
        r@ == spec_thin(level@),
{
    let len = level.len();
    let n = len / SKIP_INTERVAL + if len % SKIP_INTERVAL != 0 { 1 } else { 0 };
    assert(n == (len + 7) / 8);
    let mut out: Vec<SkipEntry> = Vec::new();
    let mut k: usize = 0;
    while k < n
        invariant
            n == (level@.len() + 7) / 8,
            len == level@.len(),
            k <= n,
            out@.len() == k,
            forall|m: int| 0 <= m < k ==> out@[m] == level@[8 * m],
        decreases n - k,
    {
        out.push(level[k * SKIP_INTERVAL]);
        k = k + 1;
    }
    assert(out@ =~= spec_thin(level@));
    out
}

impl SkipList {
    /// Build skip list from doc IDs
    pub fn build(doc_ids: &[u32]) -> (r: Option<Self>)
        ensures
            match spec_build_skip_list(doc_ids@) {
                None => r is None,
                Some(levels) => r matches Some(sl) && sl@ == levels,
            },
    {
        if doc_ids.len() < SKIP_LIST_THRESHOLD {
            return None;
        }
        let num_blocks = doc_ids.len() / BLOCK_SIZE;
        if num_blocks < SKIP_INTERVAL {
            return None;
        }
        let mut level0: Vec<SkipEntry> = Vec::new();
        let n0 = num_blocks / SKIP_INTERVAL + if num_blocks % SKIP_INTERVAL != 0 { 1 } else { 0 };
        assert(n0 == (num_blocks + 7) / 8);
        let mut k: usize = 0;
        while k < n0
            invariant
                num_blocks == doc_ids@.len() / 128,
                doc_ids@.len() <= usize::MAX,
                n0 == (num_blocks + 7) / 8,
                k <= n0,
                level0@.len() == k,
                forall|m: int| 0 <= m < k ==> level0@[m] == (SkipEntry {
                    doc_id: doc_ids@[m * 1024],
                    block_offset: #[verifier::truncate] ((m * 8) as u32),
                }),
            decreases n0 - k,
        {
            let block_idx = k * SKIP_INTERVAL;
            assert(block_idx < num_blocks);
            assert(block_idx * 128 < doc_ids@.len()) by (nonlinear_arith)
                requires block_idx < num_blocks, num_blocks == doc_ids@.len() / 128;
            let doc_idx = block_idx * BLOCK_SIZE;
            level0.push(SkipEntry { doc_id: doc_ids[doc_idx], block_offset: #[verifier::truncate] (block_idx as u32) });
            k = k + 1;
        }
        assert(level0@ =~= spec_level0(doc_ids@));
        let mut levels: Vec<Vec<SkipEntry>> = Vec::new();
        levels.push(level0);
        loop
            invariant_except_break
                levels@.len() >= 1,
                spec_levels_from(spec_level0(doc_ids@))
                    == levels@.map_values(|l: Vec<SkipEntry>| l@).drop_last()
                        + spec_levels_from(levels@.last()@),
            ensures
                spec_levels_from(spec_level0(doc_ids@)) == levels@.map_values(|l: Vec<SkipEntry>| l@),
            decreases levels@.last()@.len(),
        {
            let last_len = levels[levels.len() - 1].len();
            if last_len < SKIP_INTERVAL {
                assert(levels@.map_values(|l: Vec<SkipEntry>| l@) =~=
                    levels@.map_values(|l: Vec<SkipEntry>| l@).drop_last() + seq![levels@.last()@]);
                break;
            }
            let next = thin_level(&levels[levels.len() - 1]);
            if next.len() < 2 {
                assert(levels@.map_values(|l: Vec<SkipEntry>| l@) =~=
                    levels@.map_values(|l: Vec<SkipEntry>| l@).drop_last() + seq![levels@.last()@]);
                break;
            }
            proof { lemma_thin_shorter(levels@.last()@); }
            let ghost before = levels@.map_values(|l: Vec<SkipEntry>| l@);
            levels.push(next);
            assert(levels@.map_values(|l: Vec<SkipEntry>| l@).drop_last() =~= before);
            assert(levels@.map_values(|l: Vec<SkipEntry>| l@).drop_last() + spec_levels_from(next@)
                =~= before.drop_last() + spec_levels_from(before.last()));
        }
        Some(SkipList { levels })
    }

    /// Find the block containing doc_id or the closest preceding block
    pub fn skip_to(&self, target_doc: u32) -> (r: Option<u32>)
        ensures
            r == Some(spec_skip_to(self@, target_doc)),
    {
        let mut block_offset: u32 = 0;
        let mut li: usize = self.levels.len();
        while li > 0
            invariant
                li <= self@.len(),
                self@.len() == self.levels@.len(),
                spec_skip_to(self@, target_doc) == spec_skip_from(self@, li as nat, target_doc, block_offset),
            decreases li,
        {
            let level = &self.levels[li - 1];
            let ghost start = block_offset;
            assert(level@.skip(0) =~= level@);
            let mut j: usize = 0;
            while j < level.len()
                invariant
                    j <= level@.len(),
                    spec_scan_level(level@, target_doc, start) == spec_scan_level(level@.skip(j as int), target_doc, block_offset),
                ensures
                    block_offset == spec_scan_level(level@, target_doc, start),
                decreases level@.len() - j,
            {
                if level[j].doc_id <= target_doc {
                    block_offset = level[j].block_offset;
                    assert(level@.skip(j as int).drop_first() =~= level@.skip(j as int + 1));
                } else {
                    assert(level@.skip(j as int)[0] == level@[j as int]);
                    break;
                }
                j = j + 1;
                proof {
                    if j == level@.len() {
                        assert(level@.skip(j as int) =~= Seq::<SkipEntry>::empty());
                    }
                }
            }
            proof {
                if level@.len() == 0 {
                    assert(level@.skip(0) =~= Seq::<SkipEntry>::empty());
                }
                assert(level@ == self@[li - 1]);
            }
            li = li - 1;
        }
        Some(block_offset)
    }

    /// Append the encoded skip list.
    pub fn encode(&self, buf: &mut Vec<u8>)
        ensures
            final(buf)@ == old(buf)@ + spec_encode_skip_list(self@),
    {
        let ghost lv = self@;
        let ghost fl = |l: Seq<SkipEntry>| spec_skip_level_bytes(l);
        let ghost fe = |e: SkipEntry| spec_skip_entry_bytes(e);
        buf.push(#[verifier::truncate] (self.levels.len() as u8));
        let ghost start = buf@;
        let mut i: usize = 0;
        while i < self.levels.len()
            invariant
                i <= self.levels@.len(),
                lv == self@,
                lv.len() == self.levels@.len(),
                fl == (|l: Seq<SkipEntry>| spec_skip_level_bytes(l)),
                fe == (|e: SkipEntry| spec_skip_entry_bytes(e)),
                buf@ == start + concat_map(lv.take(i as int), fl),
            decreases self.levels@.len() - i,
        {
            let level = &self.levels[i];
            assert(level@ == lv[i as int]);
            encode_varint(level.len() as u64, buf);
            let ghost mid = buf@;
            let mut j: usize = 0;
            while j < level.len()
                invariant
                    j <= level@.len(),
                    fe == (|e: SkipEntry| spec_skip_entry_bytes(e)),
                    buf@ == mid + concat_map(level@.take(j as int), fe),
                decreases level@.len() - j,
            {
                encode_varint(level[j].doc_id as u64, buf);
                encode_varint(level[j].block_offset as u64, buf);
                proof {
                    assert(level@.take(j as int + 1) =~= level@.take(j as int).push(level@[j as int]));
                    lemma_concat_map_push(level@.take(j as int), level@[j as int], fe);
                    assert(buf@ =~= mid + concat_map(level@.take(j as int + 1), fe));
                }
                j = j + 1;
            }
            proof {
                assert(level@.take(level@.len() as int) =~= level@);
                assert(lv.take(i as int + 1) =~= lv.take(i as int).push(lv[i as int]));
                lemma_concat_map_push(lv.take(i as int), lv[i as int], fl);
                assert(buf@ =~= start + concat_map(lv.take(i as int + 1), fl));
            }
            i = i + 1;
        }
        assert(lv.take(lv.len() as int) =~= lv);
        assert(buf@ =~= old(buf)@ + spec_encode_skip_list(self@));
    }

    /// Decode a skip list from the start of `bytes`, returning it and the
    /// number of bytes consumed.
    pub fn decode(bytes: &[u8]) -> (r: Result<(Self, usize), FormatError>)
        ensures
            match spec_decode_skip_list(bytes@) {
                Ok((levels, n)) => r matches Ok((sl, m)) && sl@ == levels && m == n,
                Err(e) => r == Err::<(SkipList, usize), FormatError>(e),
            },
            r matches Ok((_, m)) ==> m <= bytes@.len(),
    {
        if bytes.len() == 0 {
            return Err(FormatError::EmptySkipList);
        }
        let num_levels = bytes[0] as usize;
        if num_levels > MAX_SKIP_LEVELS {
            return Err(FormatError::TooManySkipLevels);
        }
        let ghost total = spec_parse_skip_levels(bytes@, 1, num_levels as nat);
        let mut pos: usize = 1;
        let mut levels: Vec<Vec<SkipEntry>> = Vec::new();
        let mut i: usize = 0;
        while i < num_levels
            invariant
                i <= num_levels,
                1 <= pos <= bytes@.len(),
                total == spec_decode_skip_list(bytes@),
                match spec_parse_skip_levels(bytes@, pos as nat, (num_levels - i) as nat) {
                    Ok((rest, q)) => total == Ok::<(Seq<Seq<SkipEntry>>, nat), FormatError>(
                        (levels@.map_values(|l: Vec<SkipEntry>| l@) + rest, q)),
                    Err(e) => total == Err::<(Seq<Seq<SkipEntry>>, nat), FormatError>(e),
                },
            decreases num_levels - i,
        {
            if pos >= bytes.len() {
                return Err(FormatError::TruncatedSkipLevel);
            }
            let (count64, c) = match decode_varint_at(bytes, pos) {
                Ok(x) => x,
                Err(e) => return Err(e),
            };
            let lvl_start = pos + c;
            let (level, p) = match Self::decode_entries(bytes, lvl_start, count64) {
                Ok(x) => x,
                Err(e) => return Err(e),
            };
            let ghost old_levels = levels@.map_values(|l: Vec<SkipEntry>| l@);
            levels.push(level);
            proof {
                assert(levels@.map_values(|l: Vec<SkipEntry>| l@) =~= old_levels.push(level@));
                match spec_parse_skip_levels(bytes@, p as nat, (num_levels - i - 1) as nat) {
                    Ok((rest, q)) => {
                        assert(old_levels + (seq![level@] + rest) =~= old_levels.push(level@) + rest);
                    },
                    Err(e) => {},
                }
            }
            pos = p;
            i = i + 1;
        }
        assert(levels@.map_values(|l: Vec<SkipEntry>| l@) + Seq::<Seq<SkipEntry>>::empty()
            =~= levels@.map_values(|l: Vec<SkipEntry>| l@));
        Ok((SkipList { levels }, pos))
    }

    /// Read `count` skip entries starting at `bytes[pos]`.
    fn decode_entries(bytes: &[u8], pos: usize, count: u64) -> (r: Result<(Vec<SkipEntry>, usize), FormatError>)
        requires
            pos <= bytes@.len(),
        ensures
            match spec_parse_skip_entries(bytes@, pos as nat, count as nat) {
                Ok((entries, q)) => r matches Ok((v, m)) && v@ == entries && m == q,
                Err(e) => r == Err::<(Vec<SkipEntry>, usize), FormatError>(e),
            },
            r matches Ok((_, m)) ==> pos <= m <= bytes@.len(),
    {
        let ghost total = spec_parse_skip_entries(bytes@, pos as nat, count as nat);
        let mut entries: Vec<SkipEntry> = Vec::new();
        let mut p = pos;
        let mut j: u64 = 0;
        while j < count
            invariant
                j <= count,
                pos <= p <= bytes@.len(),
                total == spec_parse_skip_entries(bytes@, pos as nat, count as nat),
                match spec_parse_skip_entries(bytes@, p as nat, (count - j) as nat) {
                    Ok((rest, q)) => total == Ok::<(Seq<SkipEntry>, nat), FormatError>((entries@ + rest, q)),
                    Err(e) => total == Err::<(Seq<SkipEntry>, nat), FormatError>(e),
                },
            decreases count - j,
        {
            if p >= bytes.len() {
                return Err(FormatError::TruncatedSkipEntry);
            }
            let (doc_id, c1) = match decode_varint_at(bytes, p) {
                Ok(x) => x,
                Err(e) => return Err(e),
            };
            let p1 = p + c1;
            if p1 >= bytes.len() {
                return Err(FormatError::TruncatedSkipOffset);
            }
            let (off, c2) = match decode_varint_at(bytes, p1) {
                Ok(x) => x,
                Err(e) => return Err(e),
            };
            let e = SkipEntry {
                doc_id: #[verifier::truncate] (doc_id as u32),
                block_offset: #[verifier::truncate] (off as u32),
            };
            let ghost old_entries = entries@;
            entries.push(e);
            proof {
                match spec_parse_skip_entries(bytes@, (p1 + c2) as nat, (count - j - 1) as nat) {
                    Ok((rest, q)) => {
                        assert(old_entries + (seq![e] + rest) =~= old_entries.push(e) + rest);
                    },
                    Err(e) => {},
                }
            }
            p = p1 + c2;
            j = j + 1;
        }
        assert(entries@ + Seq::<SkipEntry>::empty() =~= entries@);
        Ok((entries, p))
    }
}

} // verus!
