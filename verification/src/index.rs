//! Search index construction: a suffix array over character offsets of
//! every document text, sorted by suffix, with the LCP of neighbours.
//!
//! Offsets count characters (not bytes), the way JavaScript slices strings.
//! Suffixes compare as `str` values do: byte by byte on their UTF-8.

use vstd::prelude::*;
use vstd::slice::slice_subrange;
use vstd::utf8::{encode_utf8, encode_scalar, is_char_boundary};

use crate::levenshtein::chars_of;
use crate::text::{compare_bytes, lemma_lex_total, lemma_lex_trans, lex_lt, Comparison};
use crate::types::{FieldBoundary, SearchDoc, SearchIndex, SuffixEntry};

verus! {

// ============================================================================
// CHARACTER OFFSETS
// ============================================================================

/// Where character `k` of `t` starts in its UTF-8 bytes.
pub open spec fn char_byte_pos(t: Seq<char>, k: int) -> nat {
    encode_utf8(t.take(k)).len()
}

proof fn lemma_encode_split(t: Seq<char>, k: int)
    requires
        0 <= k <= t.len(),
    ensures
        encode_utf8(t) == encode_utf8(t.take(k)) + encode_utf8(t.skip(k)),
        is_char_boundary(encode_utf8(t), char_byte_pos(t, k) as int),
    decreases k,
{
    vstd::utf8::encode_utf8_valid_utf8(t);
    if k == 0 {
        assert(t.take(0) =~= Seq::<char>::empty());
        assert(t.skip(0) =~= t);
        assert(encode_utf8(Seq::<char>::empty()) =~= Seq::<u8>::empty());
        assert(encode_utf8(t.take(0)) + encode_utf8(t.skip(0)) =~= encode_utf8(t));
    } else {
        let t1 = t.drop_first();
        lemma_encode_split(t1, k - 1);
        assert(t.take(k).drop_first() =~= t1.take(k - 1));
        assert(t.take(k)[0] == t[0]);
        assert(t1.skip(k - 1) =~= t.skip(k));
        assert(encode_utf8(t.take(k)) == encode_scalar(t[0] as u32) + encode_utf8(t1.take(k - 1)));
        assert(encode_utf8(t) =~= encode_utf8(t.take(k)) + encode_utf8(t.skip(k)));
        vstd::utf8::encode_utf8_first_scalar(t);
        assert(vstd::utf8::pop_first_scalar(encode_utf8(t)) =~= encode_utf8(t1));
        vstd::utf8::encode_utf8_valid_utf8(t1);
        let bytes = encode_utf8(t);
        let pos = char_byte_pos(t, k) as int;
        assert(pos == encode_scalar(t[0] as u32).len() + char_byte_pos(t1, k - 1));
        assert(pos > 0);
        assert(is_char_boundary(bytes, pos) == is_char_boundary(
            vstd::utf8::pop_first_scalar(bytes), pos - vstd::utf8::length_of_first_scalar(bytes)));
    }
}

/// Byte length of the UTF-8 encoding of `c`.
fn utf8_len(c: char) -> (n: usize)
    ensures
        n == encode_scalar(c as u32).len(),
        1 <= n <= 4,
{
    proof {
        vstd::utf8::char_is_scalar(c);
    }
    let v = c as u32;
    if v < 0x80 {
        1
    } else if v < 0x800 {
        2
    } else if v < 0x10000 {
        3
    } else {
        4
    }
}

/// Pre-computed character-to-byte offset mapping for a text, for slicing
/// by character offset.
struct CharOffsets {
    /// `char_to_byte[i]` is the byte index where character `i` starts;
    /// the last entry is the text's byte length.
    char_to_byte: Vec<usize>,
}

impl CharOffsets {
    /// The table describes `text`.
    spec fn describes(&self, text: Seq<char>) -> bool {
        &&& self.char_to_byte@.len() == text.len() + 1
        &&& forall|k: int| 0 <= k <= text.len() ==> #[trigger] self.char_to_byte@[k] == char_byte_pos(text, k)
    }

    fn new(text: &str) -> (co: Self)
        ensures
            co.describes(text@),
    {
        let chars = chars_of(text);
        let total = text.as_bytes().len();
        let ghost t = text@;
        proof {
            lemma_encode_split(t, t.len() as int);
            assert(t.take(t.len() as int) =~= t);
        }
        let mut table: Vec<usize> = Vec::new();
        let mut pos: usize = 0;
        let mut k: usize = 0;
        while k < chars.len()
            invariant
                chars@ == t,
                k <= t.len(),
                total == encode_utf8(t).len(),
                table@.len() == k,
                pos == char_byte_pos(t, k as int),
                forall|j: int| 0 <= j < k ==> #[trigger] table@[j] == char_byte_pos(t, j),
            decreases t.len() - k,
        {
            table.push(pos);
            let n = utf8_len(chars[k]);
            proof {
                lemma_encode_split(t, k + 1);
                assert(t.take(k + 1) =~= t.take(k as int).push(t[k as int]));
                lemma_encode_push(t.take(k as int), t[k as int]);
                assert(char_byte_pos(t, k + 1) <= encode_utf8(t).len());
            }
            pos = pos + n;
            k = k + 1;
        }
        table.push(pos);
        CharOffsets { char_to_byte: table }
    }

    /// The suffix starting at character offset `char_offset` (empty past
    /// the end).
    fn suffix_at<'a>(&self, text: &'a str, char_offset: usize) -> (s: &'a str)
        requires
            self.describes(text@),
        ensures
            s@ == text@.skip(if char_offset <= text@.len() { char_offset as int } else { text@.len() as int }),
    {
        let ghost t = text@;
        let ghost k: int = if char_offset <= t.len() { char_offset as int } else { t.len() as int };
        let byte_start = if char_offset < self.char_to_byte.len() {
            self.char_to_byte[char_offset]
        } else {
            text.as_bytes().len()
        };
        proof {
            lemma_encode_split(t, k);
            if char_offset >= self.char_to_byte.len() {
                assert(t.take(t.len() as int) =~= t);
                assert(t.skip(t.len() as int) =~= Seq::<char>::empty());
            }
            assert(byte_start == char_byte_pos(t, k));
            assert(encode_utf8(t).subrange(byte_start as int, encode_utf8(t).len() as int) =~= encode_utf8(t.skip(k)));
        }
        let (_, rest) = text.split_at(byte_start);
        proof {
            vstd::utf8::encode_utf8_decode_utf8(rest@);
            vstd::utf8::encode_utf8_decode_utf8(t.skip(k));
        }
        rest
    }

    /// Number of characters in the text
    fn char_count(&self) -> (n: usize)
        ensures
            n == if self.char_to_byte@.len() > 0 { self.char_to_byte@.len() - 1 } else { 0 },
    {
        if self.char_to_byte.len() > 0 {
            self.char_to_byte.len() - 1
        } else {
            0
        }
    }
}

proof fn lemma_encode_push(t: Seq<char>, c: char)
    ensures
        encode_utf8(t.push(c)) == encode_utf8(t) + encode_scalar(c as u32),
    decreases t.len(),
{
    if t.len() == 0 {
        assert(t.push(c).drop_first() =~= Seq::<char>::empty());
        assert(encode_utf8(Seq::<char>::empty()) =~= Seq::<u8>::empty());
        assert(encode_utf8(t.push(c)) =~= encode_utf8(t) + encode_scalar(c as u32));
    } else {
        lemma_encode_push(t.drop_first(), c);
        assert(t.push(c).drop_first() =~= t.drop_first().push(c));
        assert(t.push(c)[0] == t[0]);
        assert(encode_utf8(t.push(c)) =~= encode_utf8(t) + encode_scalar(c as u32));
    }
}

// ============================================================================
// SUFFIXES
// ============================================================================

/// The characters of an entry's suffix: its text from the entry's offset on
/// (empty past the end, or when no text has the entry's id).
pub open spec fn spec_suffix_at(texts: Seq<String>, e: SuffixEntry) -> Seq<char> {
    if e.doc_id < texts.len() {
        let t = texts[e.doc_id as int]@;
        t.skip(if e.offset <= t.len() { e.offset as int } else { t.len() as int })
    } else {
        Seq::empty()
    }
}

/// The bytes by which an entry's suffix compares.
pub open spec fn suffix_key(texts: Seq<String>, e: SuffixEntry) -> Seq<u8> {
    encode_utf8(spec_suffix_at(texts, e))
}

/// Get the suffix at a given entry in the suffix array (character-based).
pub fn suffix_at(texts: &[String], entry: &SuffixEntry) -> (s: String)
    ensures
        s@ == spec_suffix_at(texts@, *entry),
{
    if entry.doc_id < texts.len() {
        let text = texts[entry.doc_id].as_str();
        let offsets = CharOffsets::new(text);
        String::from_str(offsets.suffix_at(text, entry.offset))
    } else {
        String::new()
    }
}

/// Check if the suffix array is sorted: no suffix before its predecessor.
pub fn is_suffix_array_sorted(texts: &[String], suffix_array: &[SuffixEntry]) -> (ok: bool)
    ensures
        ok == forall|i: int| 1 <= i < suffix_array@.len() ==> !lex_lt(
            suffix_key(texts@, #[trigger] suffix_array@[i]),
            suffix_key(texts@, suffix_array@[i - 1]),
        ),
{
    let mut i: usize = 1;
    while i < suffix_array.len()
        invariant
            1 <= i,
            forall|k: int| 1 <= k < i && k < suffix_array@.len() ==> !lex_lt(
                suffix_key(texts@, #[trigger] suffix_array@[k]),
                suffix_key(texts@, suffix_array@[k - 1]),
            ),
        decreases suffix_array@.len() - i,
    {
        let prev = suffix_at(texts, &suffix_array[i - 1]);
        let curr = suffix_at(texts, &suffix_array[i]);
        match compare_bytes(prev.as_str().as_bytes(), curr.as_str().as_bytes()) {
            Comparison::Greater => {
                return false;
            },
            _ => {},
        }
        i = i + 1;
    }
    true
}

/// The entries of one document: each character offset of its text, in
/// order (none when no text has the id).
pub open spec fn doc_entries(texts: Seq<String>, id: usize) -> Seq<SuffixEntry> {
    if id < texts.len() {
        Seq::new(texts[id as int]@.len(), |o: int| SuffixEntry { doc_id: id, offset: o as usize })
    } else {
        Seq::empty()
    }
}

/// The entries of all documents, document by document.
pub open spec fn spec_generated(texts: Seq<String>, docs: Seq<SearchDoc>) -> Seq<SuffixEntry>
    decreases docs.len(),
{
    if docs.len() == 0 {
        Seq::empty()
    } else {
        spec_generated(texts, docs.drop_last()) + doc_entries(texts, docs.last().id)
    }
}

/// An entry names a text and a character inside it.
pub open spec fn entry_in_text(texts: Seq<String>, e: SuffixEntry) -> bool {
    e.doc_id < texts.len() && e.offset < texts[e.doc_id as int]@.len()
}

/// `a` (generated at `ia`) goes before `b` (generated at `ib`): a smaller
/// suffix, or the same suffix generated earlier.
pub open spec fn goes_before(texts: Seq<String>, a: SuffixEntry, ia: int, b: SuffixEntry, ib: int) -> bool {
    ||| lex_lt(suffix_key(texts, a), suffix_key(texts, b))
    ||| (suffix_key(texts, a) == suffix_key(texts, b) && ia < ib)
}

/// `sa` is `generated` sorted by suffix, ties kept in generation order;
/// `order[i]` is where `sa[i]` was generated.
pub open spec fn sorted_from(texts: Seq<String>, sa: Seq<SuffixEntry>, generated: Seq<SuffixEntry>, order: Seq<int>) -> bool {
    &&& order.len() == sa.len()
    &&& sa.len() == generated.len()
    &&& forall|i: int| 0 <= i < sa.len() ==> 0 <= #[trigger] order[i] < generated.len() && sa[i] == generated[order[i]]
    &&& forall|i: int, j: int| 0 <= i < j < sa.len() ==> goes_before(texts, #[trigger] sa[i], order[i], #[trigger] sa[j], order[j])
}

/// `e` occurs in `sa`.
pub open spec fn holds_suffix_entry(sa: Seq<SuffixEntry>, e: SuffixEntry) -> bool {
    exists|i: int| 0 <= i < sa.len() && #[trigger] sa[i] == e
}

/// The number of leading characters two sequences share.
pub open spec fn spec_common_prefix_chars(a: Seq<char>, b: Seq<char>) -> nat
    decreases a.len(),
{
    if a.len() == 0 || b.len() == 0 || a[0] != b[0] {
        0
    } else {
        1 + spec_common_prefix_chars(a.drop_first(), b.drop_first())
    }
}

/// Number of leading characters `a` and `b` share.
fn common_prefix_len_chars(a: &[char], b: &[char]) -> (n: usize)
    ensures
        n == spec_common_prefix_chars(a@, b@),
{
    let mut i: usize = 0;
    assert(a@.skip(0) =~= a@);
    assert(b@.skip(0) =~= b@);
    while i < a.len() && i < b.len() && a[i] == b[i]
        invariant
            i <= a@.len(),
            i <= b@.len(),
            spec_common_prefix_chars(a@, b@) == i + spec_common_prefix_chars(a@.skip(i as int), b@.skip(i as int)),
        decreases a@.len() - i,
    {
        proof {
            let x = a@.skip(i as int);
            let y = b@.skip(i as int);
            assert(x[0] == a@[i as int] && y[0] == b@[i as int]);
            assert(x.drop_first() =~= a@.skip(i + 1));
            assert(y.drop_first() =~= b@.skip(i + 1));
        }
        i = i + 1;
    }
    proof {
        let x = a@.skip(i as int);
        let y = b@.skip(i as int);
        if i < a@.len() && i < b@.len() {
            assert(x[0] == a@[i as int] && y[0] == b@[i as int]);
        }
    }
    i
}

// ============================================================================
// BUILDING
// ============================================================================

/// One offset table per text.
spec fn offsets_for(offsets: Seq<CharOffsets>, texts: Seq<String>) -> bool {
    &&& offsets.len() == texts.len()
    &&& forall|d: int| 0 <= d < texts.len() ==> #[trigger] offsets[d].describes(texts[d]@)
}

/// The bytes by which entry `e` sorts.
fn entry_key<'a>(texts: &'a Vec<String>, offsets: &Vec<CharOffsets>, e: SuffixEntry) -> (k: &'a [u8])
    requires
        offsets_for(offsets@, texts@),
        e.doc_id < texts@.len(),
    ensures
        k@ == suffix_key(texts@, e),
{
    let text = texts[e.doc_id].as_str();
    assert(offsets@[e.doc_id as int].describes(texts@[e.doc_id as int]@));
    offsets[e.doc_id].suffix_at(text, e.offset).as_bytes()
}

proof fn lemma_lex_asym(a: Seq<u8>, b: Seq<u8>)
    requires
        lex_lt(a, b),
    ensures
        !lex_lt(b, a),
{
    if lex_lt(b, a) {
        lemma_lex_trans(a, b, a);
        crate::text::lemma_lex_irreflexive(a);
    }
}

/// Every entry generated for `docs` names a character of its text.
proof fn lemma_generated_valid(texts: Seq<String>, docs: Seq<SearchDoc>)
    ensures
        forall|k: int| 0 <= k < spec_generated(texts, docs).len() ==> entry_in_text(texts, #[trigger] spec_generated(texts, docs)[k]),
    decreases docs.len(),
{
    if docs.len() > 0 {
        lemma_generated_valid(texts, docs.drop_last());
        let a = spec_generated(texts, docs.drop_last());
        let b = doc_entries(texts, docs.last().id);
        assert forall|k: int| 0 <= k < (a + b).len() implies entry_in_text(texts, #[trigger] (a + b)[k]) by {
            if k >= a.len() {
                assert((a + b)[k] == b[k - a.len()]);
            } else {
                assert((a + b)[k] == a[k]);
            }
        }
    }
}

/// Generate every (document, character offset) entry, document by document.
fn generate_entries(docs: &Vec<SearchDoc>, texts: &Vec<String>, offsets: &Vec<CharOffsets>) -> (g: Vec<SuffixEntry>)
    requires
        offsets_for(offsets@, texts@),
    ensures
        g@ == spec_generated(texts@, docs@),
{
    let mut generated: Vec<SuffixEntry> = Vec::new();
    let mut d: usize = 0;
    while d < docs.len()
        invariant
            d <= docs@.len(),
            offsets_for(offsets@, texts@),
            generated@ == spec_generated(texts@, docs@.take(d as int)),
        decreases docs@.len() - d,
    {
        let id = docs[d].id;
        let ghost before = generated@;
        proof {
            assert(docs@.take(d + 1).drop_last() =~= docs@.take(d as int));
            assert(docs@.take(d + 1).last() == docs@[d as int]);
        }
        if id < texts.len() {
            assert(offsets@[id as int].describes(texts@[id as int]@));
            let n = offsets[id].char_count();
            let ghost de = doc_entries(texts@, id);
            let mut o: usize = 0;
            while o < n
                invariant
                    o <= n,
                    n == texts@[id as int]@.len(),
                    id < texts@.len(),
                    de == doc_entries(texts@, id),
                    generated@ == before + de.take(o as int),
                decreases n - o,
            {
                generated.push(SuffixEntry { doc_id: id, offset: o });
                assert(de.take(o + 1) =~= de.take(o as int).push(de[o as int]));
                o = o + 1;
            }
            assert(de.take(n as int) =~= de);
        } else {
            assert(generated@ =~= before + doc_entries(texts@, id));
        }
        d = d + 1;
    }
    assert(docs@.take(docs@.len() as int) =~= docs@);
    generated
}

/// Where, in `sa` sorted so far, entry `e` goes: after every entry whose
/// suffix is not greater than its own.
fn insertion_point(texts: &Vec<String>, offsets: &Vec<CharOffsets>, sa: &Vec<SuffixEntry>, e: SuffixEntry, Ghost(order): Ghost<Seq<int>>) -> (q: usize)
    requires
        offsets_for(offsets@, texts@),
        e.doc_id < texts@.len(),
        forall|i: int| 0 <= i < sa@.len() ==> (#[trigger] sa@[i]).doc_id < texts@.len(),
        order.len() == sa@.len(),
        forall|i: int, j: int| 0 <= i < j < sa@.len() ==> goes_before(texts@, #[trigger] sa@[i], order[i], #[trigger] sa@[j], order[j]),
    ensures
        q <= sa@.len(),
        forall|m: int| 0 <= m < q ==> !lex_lt(suffix_key(texts@, e), suffix_key(texts@, #[trigger] sa@[m])),
        forall|m: int| q <= m < sa@.len() ==> lex_lt(suffix_key(texts@, e), suffix_key(texts@, #[trigger] sa@[m])),
{
    let ke = entry_key(texts, offsets, e);
    let mut lo: usize = 0;
    let mut hi: usize = sa.len();
    while lo < hi
        invariant
            lo <= hi <= sa@.len(),
            ke@ == suffix_key(texts@, e),
            offsets_for(offsets@, texts@),
            forall|i: int| 0 <= i < sa@.len() ==> (#[trigger] sa@[i]).doc_id < texts@.len(),
            forall|i: int, j: int| 0 <= i < j < sa@.len() ==> goes_before(texts@, #[trigger] sa@[i], order[i], #[trigger] sa@[j], order[j]),
            forall|m: int| 0 <= m < lo ==> !lex_lt(suffix_key(texts@, e), suffix_key(texts@, #[trigger] sa@[m])),
            forall|m: int| hi <= m < sa@.len() ==> lex_lt(suffix_key(texts@, e), suffix_key(texts@, #[trigger] sa@[m])),
        decreases hi - lo,
    {
        let mid = lo + (hi - lo) / 2;
        let km = entry_key(texts, offsets, sa[mid]);
        let ghost kmid = suffix_key(texts@, sa@[mid as int]);
        match compare_bytes(ke, km) {
            Comparison::Less => {
                proof {
                    assert forall|m: int| mid <= m < sa@.len() implies lex_lt(suffix_key(texts@, e), suffix_key(texts@, #[trigger] sa@[m])) by {
                        if m > mid {
                            assert(goes_before(texts@, sa@[mid as int], order[mid as int], sa@[m], order[m]));
                            if lex_lt(kmid, suffix_key(texts@, sa@[m])) {
                                lemma_lex_trans(suffix_key(texts@, e), kmid, suffix_key(texts@, sa@[m]));
                            }
                        }
                    }
                }
                hi = mid;
            },
            _ => {
                proof {
                    assert forall|m: int| 0 <= m <= mid implies !lex_lt(suffix_key(texts@, e), suffix_key(texts@, #[trigger] sa@[m])) by {
                        if m < mid {
                            assert(goes_before(texts@, sa@[m], order[m], sa@[mid as int], order[mid as int]));
                            if lex_lt(suffix_key(texts@, e), suffix_key(texts@, sa@[m])) {
                                if lex_lt(suffix_key(texts@, sa@[m]), kmid) {
                                    lemma_lex_trans(suffix_key(texts@, e), suffix_key(texts@, sa@[m]), kmid);
                                }
                            }
                        }
                    }
                }
                lo = mid + 1;
            },
        }
    }
    lo
}

proof fn lemma_insert_sorted(
    texts: Seq<String>,
    sa: Seq<SuffixEntry>,
    order: Seq<int>,
    g: Seq<SuffixEntry>,
    p: int,
    q: int,
    e: SuffixEntry,
)
    requires
        sorted_from(texts, sa, g.take(p), order),
        0 <= p < g.len(),
        e == g[p],
        0 <= q <= sa.len(),
        forall|m: int| 0 <= m < q ==> !lex_lt(suffix_key(texts, e), suffix_key(texts, #[trigger] sa[m])),
        forall|m: int| q <= m < sa.len() ==> lex_lt(suffix_key(texts, e), suffix_key(texts, #[trigger] sa[m])),
    ensures
        sorted_from(texts, sa.insert(q, e), g.take(p + 1), order.insert(q, p)),
{
    let sa2 = sa.insert(q, e);
    let o2 = order.insert(q, p);
    let g1 = g.take(p + 1);
    sa.insert_ensures(q, e);
    order.insert_ensures(q, p);
    assert forall|i: int| 0 <= i < sa2.len() implies 0 <= #[trigger] o2[i] < g1.len() && sa2[i] == g1[o2[i]] by {
        if i < q {
            assert(sa2[i] == sa[i] && o2[i] == order[i]);
            assert(g.take(p)[order[i]] == g1[order[i]]);
        } else if i > q {
            assert(sa2[i] == sa[i - 1] && o2[i] == order[i - 1]);
            assert(g.take(p)[order[i - 1]] == g1[order[i - 1]]);
        }
    }
    assert forall|i: int, j: int| 0 <= i < j < sa2.len() implies goes_before(texts, #[trigger] sa2[i], o2[i], #[trigger] sa2[j], o2[j]) by {
        let ke = suffix_key(texts, e);
        if j < q {
            assert(sa2[i] == sa[i] && o2[i] == order[i] && sa2[j] == sa[j] && o2[j] == order[j]);
        } else if j == q {
            assert(sa2[i] == sa[i] && o2[i] == order[i]);
            lemma_lex_total(suffix_key(texts, sa[i]), ke);
            assert(order[i] < p);
        } else if i == q {
            assert(sa2[j] == sa[j - 1]);
            assert(lex_lt(ke, suffix_key(texts, sa[j - 1])));
        } else if i < q {
            assert(sa2[i] == sa[i] && o2[i] == order[i] && sa2[j] == sa[j - 1] && o2[j] == order[j - 1]);
        } else {
            assert(sa2[i] == sa[i - 1] && o2[i] == order[i - 1] && sa2[j] == sa[j - 1] && o2[j] == order[j - 1]);
        }
    }
}

/// Sort the generated entries by suffix, keeping equal suffixes in the
/// order they were generated (binary insertion).
fn sort_entries(texts: &Vec<String>, offsets: &Vec<CharOffsets>, generated: &Vec<SuffixEntry>) -> (sa: Vec<SuffixEntry>)
    requires
        offsets_for(offsets@, texts@),
        forall|k: int| 0 <= k < generated@.len() ==> entry_in_text(texts@, #[trigger] generated@[k]),
    ensures
        exists|order: Seq<int>| sorted_from(texts@, sa@, generated@, order),
        forall|k: int| 0 <= k < generated@.len() ==> holds_suffix_entry(sa@, #[trigger] generated@[k]),
{
    let ghost g = generated@;
    let mut sa: Vec<SuffixEntry> = Vec::new();
    let ghost mut order: Seq<int> = Seq::empty();
    let ghost mut pos_of: Seq<int> = Seq::empty();
    assert(g.take(0) =~= Seq::<SuffixEntry>::empty());
    let mut p: usize = 0;
    while p < generated.len()
        invariant
            p <= g.len(),
            g == generated@,
            offsets_for(offsets@, texts@),
            forall|k: int| 0 <= k < g.len() ==> entry_in_text(texts@, #[trigger] g[k]),
            sorted_from(texts@, sa@, g.take(p as int), order),
            pos_of.len() == p,
            forall|k: int| 0 <= k < p ==> 0 <= #[trigger] pos_of[k] < sa@.len() && sa@[pos_of[k]] == g[k],
        decreases g.len() - p,
    {
        let e = generated[p];
        assert forall|i: int| 0 <= i < sa@.len() implies (#[trigger] sa@[i]).doc_id < texts@.len() by {
            assert(sa@[i] == g.take(p as int)[order[i]]);
            assert(entry_in_text(texts@, g[order[i]]));
        }
        assert(entry_in_text(texts@, g[p as int]));
        let q = insertion_point(texts, offsets, &sa, e, Ghost(order));
        let ghost old_sa = sa@;
        let ghost old_order = order;
        let ghost old_pos = pos_of;
        sa.insert(q, e);
        proof {
            lemma_insert_sorted(texts@, old_sa, old_order, g, p as int, q as int, e);
            order = old_order.insert(q as int, p as int);
            pos_of = Seq::new(p as nat + 1, |k: int| if k == p { q as int } else if old_pos[k] >= q { old_pos[k] + 1 } else { old_pos[k] });
            old_sa.insert_ensures(q as int, e);
            assert forall|k: int| 0 <= k < p + 1 implies 0 <= #[trigger] pos_of[k] < sa@.len() && sa@[pos_of[k]] == g[k] by {
                if k < p {
                    if old_pos[k] >= q {
                        assert(sa@[old_pos[k] + 1] == old_sa[old_pos[k]]);
                    } else {
                        assert(sa@[old_pos[k]] == old_sa[old_pos[k]]);
                    }
                }
            }
        }
        p = p + 1;
    }
    assert(g.take(g.len() as int) =~= g);
    assert(sorted_from(texts@, sa@, g, order));
    assert forall|k: int| 0 <= k < g.len() implies holds_suffix_entry(sa@, #[trigger] g[k]) by {
        assert(sa@[pos_of[k]] == g[k]);
    }
    sa
}

/// The LCP of neighbouring suffixes: zero first, then the number of
/// characters each suffix shares with the one before it.
fn compute_lcp(texts: &Vec<String>, sa: &Vec<SuffixEntry>) -> (lcp: Vec<usize>)
    requires
        forall|i: int| 0 <= i < sa@.len() ==> entry_in_text(texts@, #[trigger] sa@[i]),
    ensures
        lcp@.len() == sa@.len(),
        sa@.len() > 0 ==> lcp@[0] == 0,
        forall|i: int| 1 <= i < sa@.len() ==> #[trigger] lcp@[i] == spec_common_prefix_chars(
            spec_suffix_at(texts@, sa@[i - 1]), spec_suffix_at(texts@, sa@[i])),
{
    let mut chars: Vec<Vec<char>> = Vec::new();
    let mut d: usize = 0;
    while d < texts.len()
        invariant
            d <= texts@.len(),
            chars@.len() == d,
            forall|k: int| 0 <= k < d ==> (#[trigger] chars@[k])@ == texts@[k]@,
        decreases texts@.len() - d,
    {
        chars.push(chars_of(texts[d].as_str()));
        d = d + 1;
    }
    let mut lcp: Vec<usize> = Vec::new();
    let mut i: usize = 0;
    while i < sa.len()
        invariant
            i <= sa@.len(),
            chars@.len() == texts@.len(),
            forall|k: int| 0 <= k < texts@.len() ==> (#[trigger] chars@[k])@ == texts@[k]@,
            forall|k: int| 0 <= k < sa@.len() ==> entry_in_text(texts@, #[trigger] sa@[k]),
            lcp@.len() == i,
            i > 0 ==> lcp@[0] == 0,
            forall|k: int| 1 <= k < i ==> #[trigger] lcp@[k] == spec_common_prefix_chars(
                spec_suffix_at(texts@, sa@[k - 1]), spec_suffix_at(texts@, sa@[k])),
        decreases sa@.len() - i,
    {
        if i == 0 {
            lcp.push(0);
        } else {
            let prev = sa[i - 1];
            let curr = sa[i];
            assert(entry_in_text(texts@, sa@[i - 1]) && entry_in_text(texts@, sa@[i as int]));
            let pc = &chars[prev.doc_id];
            let cc = &chars[curr.doc_id];
            let a = slice_subrange(pc.as_slice(), prev.offset, pc.len());
            let b = slice_subrange(cc.as_slice(), curr.offset, cc.len());
            assert(a@ =~= spec_suffix_at(texts@, prev));
            assert(b@ =~= spec_suffix_at(texts@, curr));
            lcp.push(common_prefix_len_chars(a, b));
        }
        i = i + 1;
    }
    lcp
}

/// Build a search index from documents: the suffix array of every
/// (document, character offset), sorted by suffix with equal suffixes in
/// document order, and the LCP of neighbours.
pub fn build_index(docs: Vec<SearchDoc>, texts: Vec<String>, field_boundaries: Vec<FieldBoundary>) -> (index: SearchIndex)
    ensures
        index.docs@ == docs@,
        index.texts@ == texts@,
        index.field_boundaries@ == field_boundaries@,
        index.version == 4,
        exists|order: Seq<int>| sorted_from(texts@, index.suffix_array@, spec_generated(texts@, docs@), order),
        forall|i: int, j: int| 0 <= i < j < index.suffix_array@.len() ==> !lex_lt(
            suffix_key(texts@, #[trigger] index.suffix_array@[j]),
            suffix_key(texts@, #[trigger] index.suffix_array@[i]),
        ),
        forall|k: int| 0 <= k < spec_generated(texts@, docs@).len() ==> holds_suffix_entry(
            index.suffix_array@, #[trigger] spec_generated(texts@, docs@)[k]),
        forall|i: int| 0 <= i < index.suffix_array@.len() ==> entry_in_text(texts@, #[trigger] index.suffix_array@[i]),
        index.lcp@.len() == index.suffix_array@.len(),
        index.suffix_array@.len() > 0 ==> index.lcp@[0] == 0,
        forall|i: int| 1 <= i < index.suffix_array@.len() ==> #[trigger] index.lcp@[i] == spec_common_prefix_chars(
            spec_suffix_at(texts@, index.suffix_array@[i - 1]), spec_suffix_at(texts@, index.suffix_array@[i])),
{
    let mut offsets: Vec<CharOffsets> = Vec::new();
    let mut d: usize = 0;
    while d < texts.len()
        invariant
            d <= texts@.len(),
            offsets@.len() == d,
            forall|k: int| 0 <= k < d ==> #[trigger] offsets@[k].describes(texts@[k]@),
        decreases texts@.len() - d,
    {
        offsets.push(CharOffsets::new(texts[d].as_str()));
        d = d + 1;
    }
    let generated = generate_entries(&docs, &texts, &offsets);
    proof {
        lemma_generated_valid(texts@, docs@);
    }
    let suffixes = sort_entries(&texts, &offsets, &generated);
    let ghost g = generated@;
    proof {
        let order = choose|order: Seq<int>| sorted_from(texts@, suffixes@, g, order);
        assert forall|i: int| 0 <= i < suffixes@.len() implies entry_in_text(texts@, #[trigger] suffixes@[i]) by {
            assert(suffixes@[i] == g[order[i]]);
        }
        assert forall|i: int, j: int| 0 <= i < j < suffixes@.len() implies !lex_lt(
            suffix_key(texts@, #[trigger] suffixes@[j]),
            suffix_key(texts@, #[trigger] suffixes@[i]),
        ) by {
            assert(goes_before(texts@, suffixes@[i], order[i], suffixes@[j], order[j]));
            if lex_lt(suffix_key(texts@, suffixes@[i]), suffix_key(texts@, suffixes@[j])) {
                lemma_lex_asym(suffix_key(texts@, suffixes@[i]), suffix_key(texts@, suffixes@[j]));
            } else {
                crate::text::lemma_lex_irreflexive(suffix_key(texts@, suffixes@[i]));
            }
        }
    }
    let lcp = compute_lcp(&texts, &suffixes);
    let ghost tv = texts@;
    let ghost order = choose|order: Seq<int>| sorted_from(tv, suffixes@, g, order);
    let index = SearchIndex { docs, texts, suffix_array: suffixes, lcp, field_boundaries, version: 4 };
    assert(sorted_from(tv, index.suffix_array@, g, order));
    index
}

} // verus!
