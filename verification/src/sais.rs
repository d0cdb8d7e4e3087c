//! SA-IS: suffix array by induced sorting (Nong, Zhang, Chan 2009).
//!
//! ```text
//! Input: "banana" + sentinel
//! Types:  L S L S L L S        (S = smaller than next suffix, L = larger)
//! LMS:    S positions preceded by an L position
//! 1. place LMS suffixes at bucket tails, induce L (left to right), S (right to left)
//! 2. name LMS substrings; recurse when names repeat
//! 3. induce again from the sorted LMS suffixes
//! ```
//!
//! Every index the induction computes is checked; the array it produces is
//! then checked to be the sorted permutation of the positions, and a plain
//! insertion sort of the suffixes stands in should either check fail.

use vstd::prelude::*;
use vstd::slice::slice_subrange;

use vstd::utf8::encode_utf8;

use crate::text::{compare_bytes, lemma_lex_irreflexive, lemma_lex_total, lemma_lex_trans, lex_lt, Comparison};
use crate::types::VocabSuffixEntry;

verus! {

/// Suffix type classification.
#[derive(Clone, Copy, PartialEq, Eq, Debug, Structural)]
pub enum SuffixType {
    /// S-type: suffix is lexicographically smaller than the next suffix
    S,
    /// L-type: suffix is lexicographically larger than the next suffix
    L,
}

/// Sentinel value (smaller than all input characters).
pub const SENTINEL: u8 = 0;

/// No position (empty slot of the suffix array under construction).
const EMPTY: usize = usize::MAX;

// ============================================================================
// SPECIFICATION
// ============================================================================

/// The type of position `i`: the last position is S; otherwise compare with
/// the next character, and on a tie take the next position's type.
pub open spec fn spec_type_at(text: Seq<u8>, i: int) -> SuffixType
    decreases text.len() - i,
{
    if i >= text.len() - 1 || i < 0 {
        SuffixType::S
    } else if text[i] > text[i + 1] {
        SuffixType::L
    } else if text[i] < text[i + 1] {
        SuffixType::S
    } else {
        spec_type_at(text, i + 1)
    }
}

/// The suffix of `text` at `p`.
pub open spec fn suffix(text: Seq<u8>, p: int) -> Seq<u8> {
    text.skip(p)
}

/// Position `p` occurs somewhere in `sa`.
pub open spec fn holds_position(sa: Seq<usize>, p: int) -> bool {
    exists|i: int| 0 <= i < sa.len() && #[trigger] sa[i] == p
}

/// `sa` is the suffix array of `text`: every position exactly once, in
/// strictly increasing suffix order.
pub open spec fn is_suffix_array(text: Seq<u8>, sa: Seq<usize>) -> bool {
    &&& sa.len() == text.len()
    &&& forall|i: int| 0 <= i < sa.len() ==> #[trigger] sa[i] < text.len()
    &&& forall|p: int| 0 <= p < text.len() ==> #[trigger] holds_position(sa, p)
    &&& forall|i: int, j: int| 0 <= i < j < sa.len() ==> lex_lt(suffix(text, sa[i] as int), suffix(text, sa[j] as int))
}

// ============================================================================
// CLASSIFICATION
// ============================================================================

/// Classify each position as S-type or L-type.
pub fn classify_suffixes_u8(text: &[u8]) -> (types: Vec<SuffixType>)
    requires
        text@.len() > 0,
    ensures
        types@.len() == text@.len(),
        forall|i: int| 0 <= i < text@.len() ==> #[trigger] types@[i] == spec_type_at(text@, i),
{
    let n = text.len();
    let mut types: Vec<SuffixType> = Vec::new();
    let mut k: usize = 0;
    while k < n
        invariant
            k <= n,
            types@.len() == k,
            forall|j: int| 0 <= j < k ==> #[trigger] types@[j] == SuffixType::S,
        decreases n - k,
    {
        types.push(SuffixType::S);
        k = k + 1;
    }
    let mut i: usize = n - 1;
    assert(types@[i as int] == spec_type_at(text@, i as int));
    while i > 0
        invariant
            n == text@.len(),
            i < n,
            types@.len() == n,
            forall|j: int| i <= j < n ==> #[trigger] types@[j] == spec_type_at(text@, j),
        decreases i,
    {
        let p = i - 1;
        let t = if text[p] > text[p + 1] {
            SuffixType::L
        } else if text[p] < text[p + 1] {
            SuffixType::S
        } else {
            types[p + 1]
        };
        types.set(p, t);
        i = p;
    }
    types
}

fn classify_suffixes_usize(text: &[usize]) -> (types: Vec<SuffixType>)
    requires
        text@.len() > 0,
    ensures
        types@.len() == text@.len(),
{
    let n = text.len();
    let mut types: Vec<SuffixType> = Vec::new();
    let mut k: usize = 0;
    while k < n
        invariant
            k <= n,
            types@.len() == k,
        decreases n - k,
    {
        types.push(SuffixType::S);
        k = k + 1;
    }
    let mut i: usize = n - 1;
    while i > 0
        invariant
            n == text@.len(),
            i < n,
            types@.len() == n,
        decreases i,
    {
        let p = i - 1;
        let t = if text[p] > text[p + 1] {
            SuffixType::L
        } else if text[p] < text[p + 1] {
            SuffixType::S
        } else {
            types[p + 1]
        };
        types.set(p, t);
        i = p;
    }
    types
}

/// Position `i` is a leftmost S-type position: S-type, after an L-type one.
spec fn spec_is_lms(types: Seq<SuffixType>, i: int) -> bool {
    0 < i < types.len() && types[i] == SuffixType::S && types[i - 1] == SuffixType::L
}

/// Whether position `i` is a leftmost S-type position.
fn is_lms(types: &[SuffixType], i: usize) -> (r: bool)
    requires
        i < types@.len(),
    ensures
        r == spec_is_lms(types@, i as int),
{
    i > 0 && types[i] == SuffixType::S && types[i - 1] == SuffixType::L
}

// ============================================================================
// BUCKETS
// ============================================================================

fn filled(n: usize, v: usize) -> (r: Vec<usize>)
    ensures
        r@.len() == n,
        forall|i: int| 0 <= i < n ==> #[trigger] r@[i] == v,
{
    let mut out: Vec<usize> = Vec::new();
    let mut k: usize = 0;
    while k < n
        invariant
            k <= n,
            out@.len() == k,
            forall|i: int| 0 <= i < k ==> #[trigger] out@[i] == v,
        decreases n - k,
    {
        out.push(v);
        k = k + 1;
    }
    out
}

/// How often `c` occurs in `s`.
spec fn count_of(s: Seq<usize>, c: int) -> nat
    decreases s.len(),
{
    if s.len() == 0 {
        0
    } else {
        count_of(s.drop_last(), c) + if s.last() == c { 1nat } else { 0nat }
    }
}

/// The sum of `s`.
spec fn sum_of(s: Seq<usize>) -> int
    decreases s.len(),
{
    if s.len() == 0 {
        0
    } else {
        sum_of(s.drop_last()) + s.last()
    }
}

/// A prefix sums to no more than the whole.
proof fn lemma_sum_of_prefix(s: Seq<usize>, j: int)
    requires
        0 <= j <= s.len(),
    ensures
        sum_of(s.take(j)) <= sum_of(s),
    decreases s.len(),
{
    if j < s.len() {
        lemma_sum_of_prefix(s.drop_last(), j);
        assert(s.drop_last().take(j) =~= s.take(j));
    } else {
        assert(s.take(j) =~= s);
    }
}

/// How often each symbol occurs (none when a symbol is outside the alphabet).
fn compute_bucket_sizes_usize(text: &[usize], alphabet_size: usize) -> (r: Option<Vec<usize>>)
    ensures
        r is Some <==> forall|k: int| 0 <= k < text@.len() ==> #[trigger] text@[k] < alphabet_size,
        r matches Some(s) ==> s@.len() == alphabet_size
            && forall|c: int| 0 <= c < alphabet_size ==> #[trigger] s@[c] == count_of(text@, c),
{
    let mut sizes = filled(alphabet_size, 0);
    let mut i: usize = 0;
    assert(text@.take(0) =~= Seq::<usize>::empty());
    while i < text.len()
        invariant
            i <= text@.len(),
            sizes@.len() == alphabet_size,
            forall|k: int| 0 <= k < alphabet_size ==> #[trigger] sizes@[k] <= i,
            forall|k: int| 0 <= k < alphabet_size ==> #[trigger] sizes@[k] == count_of(text@.take(i as int), k),
            forall|k: int| 0 <= k < i ==> #[trigger] text@[k] < alphabet_size,
        decreases text@.len() - i,
    {
        let c = text[i];
        if c >= alphabet_size {
            return None;
        }
        let v = sizes[c] + 1;
        sizes.set(c, v);
        proof {
            assert(text@.take(i + 1).drop_last() =~= text@.take(i as int));
        }
        i = i + 1;
    }
    assert(text@.take(i as int) =~= text@);
    Some(sizes)
}

/// Bucket head positions: running sums of the sizes before each symbol
/// (none when the total overflows).
fn compute_bucket_heads(sizes: &[usize]) -> (r: Option<Vec<usize>>)
    ensures
        r is Some <==> sum_of(sizes@) <= usize::MAX,
        r matches Some(b) ==> b@.len() == sizes@.len()
            && forall|c: int| 0 <= c < sizes@.len() ==> #[trigger] b@[c] == sum_of(sizes@.take(c)),
{
    let mut heads: Vec<usize> = Vec::new();
    let mut sum: usize = 0;
    let mut i: usize = 0;
    assert(sizes@.take(0) =~= Seq::<usize>::empty());
    while i < sizes.len()
        invariant
            i <= sizes@.len(),
            heads@.len() == i,
            sum == sum_of(sizes@.take(i as int)),
            forall|c: int| 0 <= c < i ==> #[trigger] heads@[c] == sum_of(sizes@.take(c)),
        decreases sizes@.len() - i,
    {
        heads.push(sum);
        proof {
            assert(sizes@.take(i + 1).drop_last() =~= sizes@.take(i as int));
            lemma_sum_of_prefix(sizes@, i + 1);
        }
        if sum > usize::MAX - sizes[i] {
            return None;
        }
        sum = sum + sizes[i];
        i = i + 1;
    }
    assert(sizes@.take(i as int) =~= sizes@);
    Some(heads)
}

/// Bucket tail positions: running sums of the sizes up to each symbol
/// (none when the total overflows).
fn compute_bucket_tails(sizes: &[usize]) -> (r: Option<Vec<usize>>)
    ensures
        r is Some <==> sum_of(sizes@) <= usize::MAX,
        r matches Some(b) ==> b@.len() == sizes@.len()
            && forall|c: int| 0 <= c < sizes@.len() ==> #[trigger] b@[c] == sum_of(sizes@.take(c + 1)),
{
    let mut tails: Vec<usize> = Vec::new();
    let mut sum: usize = 0;
    let mut i: usize = 0;
    assert(sizes@.take(0) =~= Seq::<usize>::empty());
    while i < sizes.len()
        invariant
            i <= sizes@.len(),
            tails@.len() == i,
            sum == sum_of(sizes@.take(i as int)),
            forall|c: int| 0 <= c < i ==> #[trigger] tails@[c] == sum_of(sizes@.take(c + 1)),
        decreases sizes@.len() - i,
    {
        proof {
            assert(sizes@.take(i + 1).drop_last() =~= sizes@.take(i as int));
            lemma_sum_of_prefix(sizes@, i + 1);
        }
        if sum > usize::MAX - sizes[i] {
            return None;
        }
        sum = sum + sizes[i];
        tails.push(sum);
        i = i + 1;
    }
    assert(sizes@.take(i as int) =~= sizes@);
    Some(tails)
}

// ============================================================================
// INDUCED SORTING
// ============================================================================

/// Place the given LMS positions at their bucket tails (in reverse order),
/// then induce L-type positions left to right and S-type positions right
/// to left. None when an index falls outside its array.
fn induce(text: &[usize], types: &[SuffixType], lms_order: &[usize], sizes: &[usize]) -> (r: Option<Vec<usize>>)
    requires
        types@.len() == text@.len(),
    ensures
        r matches Some(sa) ==> sa@.len() == text@.len(),
{
    let n = text.len();
    let mut sa = filled(n, EMPTY);
    let mut tails = match compute_bucket_tails(sizes) {
        Some(t) => t,
        None => return None,
    };
    let mut k: usize = lms_order.len();
    while k > 0
        invariant
            k <= lms_order@.len(),
            sa@.len() == n,
            n == text@.len(),
        decreases k,
    {
        k = k - 1;
        let pos = lms_order[k];
        if pos >= n {
            return None;
        }
        let c = text[pos];
        if c >= tails.len() || tails[c] == 0 {
            return None;
        }
        let t = tails[c] - 1;
        tails.set(c, t);
        if t >= n {
            return None;
        }
        sa.set(t, pos);
    }
    let mut heads = match compute_bucket_heads(sizes) {
        Some(h) => h,
        None => return None,
    };
    let mut i: usize = 0;
    while i < n
        invariant
            i <= n,
            sa@.len() == n,
            n == text@.len(),
            types@.len() == n,
        decreases n - i,
    {
        let v = sa[i];
        if v != EMPTY && v != 0 {
            if v > n {
                return None;
            }
            let j = v - 1;
            if types[j] == SuffixType::L {
                let c = text[j];
                if c >= heads.len() || heads[c] >= n {
                    return None;
                }
                let h = heads[c];
                sa.set(h, j);
                heads.set(c, h + 1);
            }
        }
        i = i + 1;
    }
    let mut tails = match compute_bucket_tails(sizes) {
        Some(t) => t,
        None => return None,
    };
    let mut i: usize = n;
    while i > 0
        invariant
            i <= n,
            sa@.len() == n,
            n == text@.len(),
            types@.len() == n,
        decreases i,
    {
        i = i - 1;
        let v = sa[i];
        if v != EMPTY && v != 0 {
            if v > n {
                return None;
            }
            let j = v - 1;
            if types[j] == SuffixType::S {
                let c = text[j];
                if c >= tails.len() || tails[c] == 0 {
                    return None;
                }
                let t = tails[c] - 1;
                if t >= n {
                    return None;
                }
                tails.set(c, t);
                sa.set(t, j);
            }
        }
    }
    Some(sa)
}

/// The LMS substrings at `i` and `j` agree from offset `k` on: walking
/// both, the characters and types match until both reach an LMS position
/// (after the first offset) at the same offset, or both run off the end
/// together.
spec fn lms_equal_from(text: Seq<usize>, types: Seq<SuffixType>, i: nat, j: nat, k: nat) -> bool
    decreases text.len() - k,
{
    let p = (i + k) as int;
    let q = (j + k) as int;
    if p >= text.len() || q >= text.len() {
        p >= text.len() && q >= text.len()
    } else if text[p] != text[q] || types[p] != types[q] {
        false
    } else if k > 0 && spec_is_lms(types, p) && spec_is_lms(types, q) {
        true
    } else if k > 0 && spec_is_lms(types, p) != spec_is_lms(types, q) {
        false
    } else {
        lms_equal_from(text, types, i, j, k + 1)
    }
}

/// Whether the LMS substrings starting at `i` and `j` are equal (same
/// characters and types up to and including the next LMS position).
fn lms_substrings_equal_usize(text: &[usize], types: &[SuffixType], i: usize, j: usize) -> (r: bool)
    requires
        types@.len() == text@.len(),
    ensures
        r == (i == j || lms_equal_from(text@, types@, i as nat, j as nat, 0)),
{
    if i == j {
        return true;
    }
    let n = text.len();
    let mut k: usize = 0;
    loop
        invariant
            n == text@.len(),
            types@.len() == n,
            k <= n,
            i != j,
            lms_equal_from(text@, types@, i as nat, j as nat, 0) == lms_equal_from(
                text@,
                types@,
                i as nat,
                j as nat,
                k as nat,
            ),
        decreases n - k,
    {
        if i >= n - k || j >= n - k {
            return i >= n - k && j >= n - k;
        }
        let pi = i + k;
        let pj = j + k;
        if text[pi] != text[pj] {
            return false;
        }
        if types[pi] != types[pj] {
            return false;
        }
        if k > 0 {
            let lms_i = is_lms(types, pi);
            let lms_j = is_lms(types, pj);
            if lms_i && lms_j {
                return true;
            }
            if lms_i != lms_j {
                return false;
            }
        }
        k = k + 1;
    }
}

/// `x` comes before `y` in lexicographic order (a proper prefix first).
spec fn int_lex_lt(x: Seq<usize>, y: Seq<usize>) -> bool
    decreases x.len(),
{
    if x.len() == 0 {
        y.len() > 0
    } else if y.len() == 0 {
        false
    } else if x[0] != y[0] {
        x[0] < y[0]
    } else {
        int_lex_lt(x.drop_first(), y.drop_first())
    }
}

/// Compare the suffixes of an integer text at `a` and `b`: true when the
/// one at `a` comes first.
fn int_suffix_less(text: &[usize], a: usize, b: usize) -> (r: bool)
    requires
        a <= text@.len(),
        b <= text@.len(),
    ensures
        r == int_lex_lt(text@.skip(a as int), text@.skip(b as int)),
{
    let n = text.len();
    let mut k: usize = 0;
    while k < n - a && k < n - b
        invariant
            n == text@.len(),
            a <= n,
            b <= n,
            k <= n,
            k <= n - a,
            k <= n - b,
            int_lex_lt(text@.skip(a as int), text@.skip(b as int)) == int_lex_lt(
                text@.skip(a + k),
                text@.skip(b + k),
            ),
        decreases n - k,
    {
        proof {
            assert(text@.skip(a + k)[0] == text@[a + k]);
            assert(text@.skip(b + k)[0] == text@[b + k]);
            assert(text@.skip(a + k).drop_first() =~= text@.skip(a + k + 1));
            assert(text@.skip(b + k).drop_first() =~= text@.skip(b + k + 1));
        }
        if text[a + k] != text[b + k] {
            return text[a + k] < text[b + k];
        }
        k = k + 1;
    }
    k >= n - a && k < n - b
}

/// The suffix of an integer text at `p`.
spec fn int_suffix(text: Seq<usize>, p: int) -> Seq<usize> {
    text.skip(p)
}

/// `sa` is the suffix array of the integer text: every position exactly
/// once, in strictly increasing suffix order.
spec fn is_int_suffix_array(text: Seq<usize>, sa: Seq<usize>) -> bool {
    &&& sa.len() == text.len()
    &&& forall|i: int| 0 <= i < sa.len() ==> #[trigger] sa[i] < text.len()
    &&& forall|p: int| 0 <= p < text.len() ==> #[trigger] holds_position(sa, p)
    &&& forall|i: int, j: int| 0 <= i < j < sa.len() ==> int_lex_lt(int_suffix(text, sa[i] as int), int_suffix(text, sa[j] as int))
}

proof fn lemma_int_lex_irreflexive(a: Seq<usize>)
    ensures
        !int_lex_lt(a, a),
    decreases a.len(),
{
    if a.len() > 0 {
        lemma_int_lex_irreflexive(a.drop_first());
    }
}

proof fn lemma_int_lex_trans(a: Seq<usize>, b: Seq<usize>, c: Seq<usize>)
    requires
        int_lex_lt(a, b),
        int_lex_lt(b, c),
    ensures
        int_lex_lt(a, c),
    decreases a.len(),
{
    if a.len() > 0 && b.len() > 0 && c.len() > 0 && a[0] == b[0] && b[0] == c[0] {
        lemma_int_lex_trans(a.drop_first(), b.drop_first(), c.drop_first());
    }
}

proof fn lemma_int_lex_total(a: Seq<usize>, b: Seq<usize>)
    ensures
        a == b || int_lex_lt(a, b) || int_lex_lt(b, a),
    decreases a.len(),
{
    if a.len() > 0 && b.len() > 0 && a[0] == b[0] {
        lemma_int_lex_total(a.drop_first(), b.drop_first());
        if a.drop_first() == b.drop_first() {
            assert(a =~= seq![a[0]] + a.drop_first());
            assert(b =~= seq![b[0]] + b.drop_first());
        }
    } else if a.len() == 0 && b.len() == 0 {
        assert(a =~= b);
    }
}

/// Byte order and the order of the same symbols widened to `usize` agree.
proof fn lemma_lex_widened(x: Seq<u8>, y: Seq<u8>, wx: Seq<usize>, wy: Seq<usize>)
    requires
        wx.len() == x.len(),
        wy.len() == y.len(),
        forall|i: int| 0 <= i < x.len() ==> #[trigger] wx[i] == x[i] as usize,
        forall|i: int| 0 <= i < y.len() ==> #[trigger] wy[i] == y[i] as usize,
    ensures
        lex_lt(x, y) == int_lex_lt(wx, wy),
    decreases x.len(),
{
    if x.len() > 0 && y.len() > 0 {
        assert(wx[0] == x[0] as usize && wy[0] == y[0] as usize);
        if x[0] == y[0] {
            lemma_lex_widened(x.drop_first(), y.drop_first(), wx.drop_first(), wy.drop_first());
        }
    }
}

proof fn lemma_int_suffixes_distinct(text: Seq<usize>, p: int, q: int)
    requires
        0 <= p < text.len(),
        0 <= q < text.len(),
        p != q,
    ensures
        int_lex_lt(int_suffix(text, p), int_suffix(text, q)) || int_lex_lt(int_suffix(text, q), int_suffix(text, p)),
{
    lemma_int_lex_total(int_suffix(text, p), int_suffix(text, q));
    assert(int_suffix(text, p).len() != int_suffix(text, q).len());
}

proof fn lemma_int_adjacent_sorted(text: Seq<usize>, sa: Seq<usize>, m: int)
    requires
        0 <= m <= sa.len(),
        forall|q: int| 1 <= q < sa.len() ==> int_lex_lt(int_suffix(text, sa[q - 1] as int), int_suffix(text, #[trigger] sa[q] as int)),
    ensures
        forall|i: int, j: int| 0 <= i < j < m ==> int_lex_lt(int_suffix(text, sa[i] as int), int_suffix(text, sa[j] as int)),
    decreases m,
{
    if m > 0 {
        lemma_int_adjacent_sorted(text, sa, m - 1);
        assert forall|i: int, j: int| 0 <= i < j < m implies int_lex_lt(int_suffix(text, sa[i] as int), int_suffix(text, sa[j] as int)) by {
            if j == m - 1 && i < j - 1 {
                assert(int_lex_lt(int_suffix(text, sa[j - 1] as int), int_suffix(text, sa[j] as int)));
                lemma_int_lex_trans(int_suffix(text, sa[i] as int), int_suffix(text, sa[j - 1] as int), int_suffix(text, sa[j] as int));
            }
        }
    }
}

/// Whether `sa` is the suffix array of the integer text.
fn check_int_suffix_array(text: &[usize], sa: &Vec<usize>) -> (ok: bool)
    ensures
        ok == is_int_suffix_array(text@, sa@),
{
    let n = text.len();
    if sa.len() != n {
        return false;
    }
    let mut seen: Vec<bool> = Vec::new();
    let mut k: usize = 0;
    while k < n
        invariant
            k <= n,
            seen@.len() == k,
            forall|p: int| 0 <= p < k ==> !#[trigger] seen@[p],
        decreases n - k,
    {
        seen.push(false);
        k = k + 1;
    }
    let mut i: usize = 0;
    while i < n
        invariant
            i <= n,
            n == text@.len(),
            sa@.len() == n,
            seen@.len() == n,
            forall|q: int| 0 <= q < i ==> #[trigger] sa@[q] < n,
            forall|p: int| 0 <= p < n && #[trigger] seen@[p] ==> exists|q: int| 0 <= q < i && sa@[q] == p,
            forall|q: int| 0 <= q < i ==> #[trigger] seen@[sa@[q] as int],
            forall|q: int| 1 <= q < i ==> int_lex_lt(int_suffix(text@, sa@[q - 1] as int), int_suffix(text@, #[trigger] sa@[q] as int)),
        decreases n - i,
    {
        let p = sa[i];
        if p >= n {
            return false;
        }
        if seen[p] {
            proof {
                // An earlier slot holds `p` too, and no suffix precedes itself.
                let q = choose|q: int| 0 <= q < i && sa@[q] == p;
                lemma_int_lex_irreflexive(int_suffix(text@, p as int));
                assert(!int_lex_lt(int_suffix(text@, sa@[q] as int), int_suffix(text@, sa@[i as int] as int)));
            }
            return false;
        }
        if i > 0 {
            if !int_suffix_less(text, sa[i - 1], p) {
                proof {
                    assert(!int_lex_lt(int_suffix(text@, sa@[i - 1] as int), int_suffix(text@, sa@[i as int] as int)));
                }
                return false;
            }
        }
        seen.set(p, true);
        i = i + 1;
    }
    let mut p: usize = 0;
    while p < n
        invariant
            p <= n,
            n == text@.len(),
            sa@.len() == n,
            seen@.len() == n,
            forall|x: int| 0 <= x < p ==> #[trigger] seen@[x],
            forall|p: int| 0 <= p < n && #[trigger] seen@[p] ==> exists|q: int| 0 <= q < n && sa@[q] == p,
            forall|q: int| 0 <= q < n ==> #[trigger] seen@[sa@[q] as int],
        decreases n - p,
    {
        if !seen[p] {
            proof {
                // No slot holds `p`: each held position was marked.
                assert(!holds_position(sa@, p as int));
            }
            return false;
        }
        p = p + 1;
    }
    proof {
        assert forall|x: int| 0 <= x < n implies #[trigger] holds_position(sa@, x) by {
            assert(seen@[x]);
        }
        lemma_int_adjacent_sorted(text@, sa@, sa@.len() as int);
    }
    true
}

/// Sort the positions of an integer text by their suffixes (insertion sort):
/// each position goes before the first placed suffix larger than its own.
fn sort_int_suffixes(text: &[usize]) -> (sa: Vec<usize>)
    ensures
        is_int_suffix_array(text@, sa@),
{
    let n = text.len();
    let mut out: Vec<usize> = Vec::new();
    let mut p: usize = 0;
    while p < n
        invariant
            p <= n,
            n == text@.len(),
            out@.len() == p,
            forall|i: int| 0 <= i < out@.len() ==> #[trigger] out@[i] < p,
            forall|x: int| 0 <= x < p ==> #[trigger] holds_position(out@, x),
            forall|i: int, j: int| 0 <= i < j < out@.len() ==> int_lex_lt(int_suffix(text@, out@[i] as int), int_suffix(text@, out@[j] as int)),
        decreases n - p,
    {
        let ghost sp = int_suffix(text@, p as int);
        let mut idx: usize = 0;
        while idx < out.len() && int_suffix_less(text, out[idx], p)
            invariant
                idx <= out@.len(),
                p < n,
                n == text@.len(),
                sp == int_suffix(text@, p as int),
                forall|i: int| 0 <= i < out@.len() ==> #[trigger] out@[i] < p,
                forall|i: int| 0 <= i < idx ==> int_lex_lt(int_suffix(text@, #[trigger] out@[i] as int), sp),
            decreases out@.len() - idx,
        {
            idx = idx + 1;
        }
        let ghost before = out@;
        proof {
            if idx < before.len() {
                lemma_int_suffixes_distinct(text@, before[idx as int] as int, p as int);
            }
        }
        out.insert(idx, p);
        proof {
            assert forall|i: int| 0 <= i < out@.len() implies #[trigger] out@[i] < p + 1 by {
                if i < idx { assert(out@[i] == before[i]); } else if i > idx { assert(out@[i] == before[i - 1]); }
            }
            assert forall|x: int| 0 <= x < p + 1 implies #[trigger] holds_position(out@, x) by {
                if x == p {
                    assert(out@[idx as int] == p);
                } else {
                    assert(holds_position(before, x));
                    let i0 = choose|i: int| 0 <= i < before.len() && #[trigger] before[i] == x;
                    if i0 < idx { assert(out@[i0] == x); } else { assert(out@[i0 + 1] == x); }
                }
            }
            assert forall|i: int, j: int| 0 <= i < j < out@.len() implies int_lex_lt(int_suffix(text@, out@[i] as int), int_suffix(text@, out@[j] as int)) by {
                let si = int_suffix(text@, out@[i] as int);
                let sj = int_suffix(text@, out@[j] as int);
                if j < idx {
                    assert(out@[i] == before[i] && out@[j] == before[j]);
                } else if j == idx {
                    assert(out@[i] == before[i]);
                } else if i == idx {
                    assert(out@[j] == before[j - 1]);
                    if idx < before.len() {
                        // The suffix at `idx` was not smaller than p's.
                        assert(!int_lex_lt(int_suffix(text@, before[idx as int] as int), sp));
                        assert(int_lex_lt(sp, int_suffix(text@, before[idx as int] as int)));
                        if j - 1 > idx {
                            lemma_int_lex_trans(sp, int_suffix(text@, before[idx as int] as int), sj);
                        }
                    }
                } else if i < idx {
                    assert(out@[i] == before[i] && out@[j] == before[j - 1]);
                } else {
                    assert(out@[i] == before[i - 1] && out@[j] == before[j - 1]);
                }
            }
        }
        p = p + 1;
    }
    out
}

/// The induced order when it checks out as the suffix array, the insertion
/// sort otherwise.
fn checked_or_sorted(text: &[usize], candidate: Option<Vec<usize>>) -> (r: Vec<usize>)
    ensures
        is_int_suffix_array(text@, r@),
{
    match candidate {
        Some(sa) => {
            if check_int_suffix_array(text, &sa) {
                sa
            } else {
                sort_int_suffixes(text)
            }
        },
        None => sort_int_suffixes(text),
    }
}

/// SA-IS on an integer text: the suffix array of `text`, with symbols
/// bucketed below `alphabet_size`. Every index the induction computes is
/// checked, and so is the array it yields; should a check fail, the
/// positions are sorted by insertion instead.
fn sais_recursive(text: &[usize], alphabet_size: usize, top: bool) -> (r: Vec<usize>)
    ensures
        is_int_suffix_array(text@, r@),
    decreases text@.len(),
{
    let n = text.len();
    if n == 0 {
        return Vec::new();
    }
    if n == 1 {
        let mut one: Vec<usize> = Vec::new();
        one.push(0);
        assert(one@[0] == 0);
        assert(holds_position(one@, 0));
        return one;
    }
    if !top && n == 2 {
        let mut two: Vec<usize> = Vec::new();
        if text[0] <= text[1] {
            two.push(0);
            two.push(1);
        } else {
            two.push(1);
            two.push(0);
        }
        return checked_or_sorted(text, Some(two));
    }

    let types = classify_suffixes_usize(text);
    let mut lms_positions: Vec<usize> = Vec::new();
    let mut i: usize = 1;
    while i < n
        invariant
            1 <= i <= n,
            types@.len() == n,
            n == text@.len(),
            lms_positions@.len() < i,
            forall|k: int| 0 <= k < lms_positions@.len() ==> #[trigger] lms_positions@[k] < n,
        decreases n - i,
    {
        if is_lms(types.as_slice(), i) {
            lms_positions.push(i);
        }
        i = i + 1;
    }

    if !top && lms_positions.len() == 0 {
        return sort_int_suffixes(text);
    }

    let sizes = match compute_bucket_sizes_usize(text, alphabet_size) {
        Some(s) => s,
        None => return sort_int_suffixes(text),
    };
    let sa = match induce(text, types.as_slice(), lms_positions.as_slice(), sizes.as_slice()) {
        Some(s) => s,
        None => return sort_int_suffixes(text),
    };

    // Name the LMS substrings in their sorted order.
    let mut name: usize = 0;
    let mut prev_pos: Option<usize> = None;
    let mut lms_names = filled(n, 0);
    let mut k: usize = 0;
    while k < n
        invariant
            k <= n,
            n == text@.len(),
            types@.len() == n,
            sa@.len() == n,
            lms_names@.len() == n,
            name <= k,
            prev_pos matches Some(p) ==> p < n,
        decreases n - k,
    {
        let pos = sa[k];
        if pos >= n {
            return sort_int_suffixes(text);
        }
        if is_lms(types.as_slice(), pos) {
            if let Some(prev) = prev_pos {
                if !lms_substrings_equal_usize(text, types.as_slice(), prev, pos) {
                    name = name + 1;
                }
            }
            lms_names.set(pos, name);
            prev_pos = Some(pos);
        }
        k = k + 1;
    }
    if name == usize::MAX {
        return sort_int_suffixes(text);
    }
    let unique_count = name + 1;

    let mut reduced: Vec<usize> = Vec::new();
    let mut m: usize = 0;
    while m < lms_positions.len()
        invariant
            m <= lms_positions@.len(),
            reduced@.len() == m,
            lms_names@.len() == n,
            forall|q: int| 0 <= q < lms_positions@.len() ==> #[trigger] lms_positions@[q] < n,
        decreases lms_positions@.len() - m,
    {
        reduced.push(lms_names[lms_positions[m]]);
        m = m + 1;
    }

    let sorted_lms_indices: Vec<usize> = if unique_count < lms_positions.len() {
        if reduced.len() >= n {
            return sort_int_suffixes(text);
        }
        sais_recursive(reduced.as_slice(), unique_count, false)
    } else {
        // All names distinct: each name is the rank of its LMS substring.
        let mut order = filled(reduced.len(), EMPTY);
        let mut q: usize = 0;
        while q < reduced.len()
            invariant
                q <= reduced@.len(),
                order@.len() == reduced@.len(),
            decreases reduced@.len() - q,
        {
            let r = reduced[q];
            if r >= order.len() {
                return sort_int_suffixes(text);
            }
            order.set(r, q);
            q = q + 1;
        }
        order
    };

    let mut sorted_lms: Vec<usize> = Vec::new();
    let mut s: usize = 0;
    while s < sorted_lms_indices.len()
        invariant
            s <= sorted_lms_indices@.len(),
        decreases sorted_lms_indices@.len() - s,
    {
        let idx = sorted_lms_indices[s];
        if idx >= lms_positions.len() {
            return sort_int_suffixes(text);
        }
        sorted_lms.push(lms_positions[idx]);
        s = s + 1;
    }

    checked_or_sorted(text, induce(text, types.as_slice(), sorted_lms.as_slice(), sizes.as_slice()))
}

/// SA-IS on a byte text (the caller appends the sentinel): the suffix
/// array of `text`.
fn sais_inner(text: &[u8], alphabet_size: usize) -> (r: Vec<usize>)
    ensures
        is_suffix_array(text@, r@),
{
    let mut wide: Vec<usize> = Vec::new();
    let mut i: usize = 0;
    while i < text.len()
        invariant
            i <= text@.len(),
            wide@.len() == i,
            forall|q: int| 0 <= q < i ==> #[trigger] wide@[q] == text@[q] as usize,
        decreases text@.len() - i,
    {
        wide.push(text[i] as usize);
        i = i + 1;
    }
    let sa = sais_recursive(wide.as_slice(), alphabet_size, true);
    proof {
        assert forall|a: int, b: int| 0 <= a < sa@.len() && 0 <= b < sa@.len() && a < b implies lex_lt(
            suffix(text@, sa@[a] as int),
            suffix(text@, sa@[b] as int),
        ) by {
            let x = suffix(text@, sa@[a] as int);
            let y = suffix(text@, sa@[b] as int);
            let wx = int_suffix(wide@, sa@[a] as int);
            let wy = int_suffix(wide@, sa@[b] as int);
            assert forall|q: int| 0 <= q < x.len() implies #[trigger] wx[q] == x[q] as usize by {
                assert(wide@[sa@[a] + q] == text@[sa@[a] + q] as usize);
            }
            assert forall|q: int| 0 <= q < y.len() implies #[trigger] wy[q] == y[q] as usize by {
                assert(wide@[sa@[b] + q] == text@[sa@[b] + q] as usize);
            }
            lemma_lex_widened(x, y, wx, wy);
        }
    }
    sa
}

// ============================================================================
// CHECKING AND THE PLAIN SORT
// ============================================================================

proof fn lemma_suffixes_distinct(text: Seq<u8>, p: int, q: int)
    requires
        0 <= p < text.len(),
        0 <= q < text.len(),
        p != q,
    ensures
        lex_lt(suffix(text, p), suffix(text, q)) || lex_lt(suffix(text, q), suffix(text, p)),
{
    lemma_lex_total(suffix(text, p), suffix(text, q));
    assert(suffix(text, p).len() != suffix(text, q).len());
}

fn suffix_slice(text: &[u8], p: usize) -> (r: &[u8])
    requires
        p <= text@.len(),
    ensures
        r@ == suffix(text@, p as int),
{
    let r = slice_subrange(text, p, text.len());
    assert(r@ =~= text@.skip(p as int));
    r
}

/// Whether the suffix at `a` comes before the suffix at `b`.
fn suffix_before(text: &[u8], a: usize, b: usize) -> (r: bool)
    requires
        a <= text@.len(),
        b <= text@.len(),
    ensures
        r == lex_lt(suffix(text@, a as int), suffix(text@, b as int)),
{
    let x = suffix_slice(text, a);
    let y = suffix_slice(text, b);
    match compare_bytes(x, y) {
        Comparison::Less => true,
        _ => false,
    }
}

/// Whether `sa` is the suffix array of `text`.
fn check_suffix_array(text: &[u8], sa: &Vec<usize>) -> (ok: bool)
    ensures
        ok == is_suffix_array(text@, sa@),
{
    let n = text.len();
    if sa.len() != n {
        return false;
    }
    let mut seen: Vec<bool> = Vec::new();
    let mut k: usize = 0;
    while k < n
        invariant
            k <= n,
            seen@.len() == k,
            forall|p: int| 0 <= p < k ==> !#[trigger] seen@[p],
        decreases n - k,
    {
        seen.push(false);
        k = k + 1;
    }
    let mut i: usize = 0;
    while i < n
        invariant
            i <= n,
            n == text@.len(),
            sa@.len() == n,
            seen@.len() == n,
            forall|q: int| 0 <= q < i ==> #[trigger] sa@[q] < n,
            forall|p: int| 0 <= p < n && #[trigger] seen@[p] ==> exists|q: int| 0 <= q < i && sa@[q] == p,
            forall|q: int| 0 <= q < i ==> #[trigger] seen@[sa@[q] as int],
            forall|q: int| 1 <= q < i ==> lex_lt(suffix(text@, sa@[q - 1] as int), suffix(text@, #[trigger] sa@[q] as int)),
        decreases n - i,
    {
        let p = sa[i];
        if p >= n {
            return false;
        }
        if seen[p] {
            proof {
                // An earlier slot holds `p` too, and no suffix precedes itself.
                let q = choose|q: int| 0 <= q < i && sa@[q] == p;
                lemma_lex_irreflexive(suffix(text@, p as int));
                assert(!lex_lt(suffix(text@, sa@[q] as int), suffix(text@, sa@[i as int] as int)));
            }
            return false;
        }
        if i > 0 {
            let a = suffix_slice(text, sa[i - 1]);
            let b = suffix_slice(text, p);
            match compare_bytes(a, b) {
                Comparison::Less => {},
                _ => {
                    proof {
                        assert(!lex_lt(suffix(text@, sa@[i - 1] as int), suffix(text@, sa@[i as int] as int)));
                    }
                    return false;
                },
            }
        }
        seen.set(p, true);
        i = i + 1;
    }
    let mut p: usize = 0;
    while p < n
        invariant
            p <= n,
            n == text@.len(),
            sa@.len() == n,
            seen@.len() == n,
            forall|x: int| 0 <= x < p ==> #[trigger] seen@[x],
            forall|p: int| 0 <= p < n && #[trigger] seen@[p] ==> exists|q: int| 0 <= q < n && sa@[q] == p,
            forall|q: int| 0 <= q < n ==> #[trigger] seen@[sa@[q] as int],
        decreases n - p,
    {
        if !seen[p] {
            proof {
                // No slot holds `p`: each held position was marked.
                assert(!holds_position(sa@, p as int));
            }
            return false;
        }
        p = p + 1;
    }
    proof {
        assert forall|x: int| 0 <= x < n implies #[trigger] holds_position(sa@, x) by {
            assert(seen@[x]);
        }
        lemma_adjacent_sorted(text@, sa@, sa@.len() as int);
    }
    true
}

proof fn lemma_adjacent_sorted(text: Seq<u8>, sa: Seq<usize>, m: int)
    requires
        0 <= m <= sa.len(),
        forall|q: int| 1 <= q < sa.len() ==> lex_lt(suffix(text, sa[q - 1] as int), suffix(text, #[trigger] sa[q] as int)),
    ensures
        forall|i: int, j: int| 0 <= i < j < m ==> lex_lt(suffix(text, sa[i] as int), suffix(text, sa[j] as int)),
    decreases m,
{
    if m > 0 {
        lemma_adjacent_sorted(text, sa, m - 1);
        assert forall|i: int, j: int| 0 <= i < j < m implies lex_lt(suffix(text, sa[i] as int), suffix(text, sa[j] as int)) by {
            if j == m - 1 && i < j - 1 {
                assert(lex_lt(suffix(text, sa[j - 1] as int), suffix(text, sa[j] as int)));
                lemma_lex_trans(suffix(text, sa[i] as int), suffix(text, sa[j - 1] as int), suffix(text, sa[j] as int));
            }
        }
    }
}

/// The suffix array by insertion: each position goes before the first
/// placed suffix larger than its own.
fn plain_suffix_array(text: &[u8]) -> (sa: Vec<usize>)
    ensures
        is_suffix_array(text@, sa@),
{
    let n = text.len();
    let mut out: Vec<usize> = Vec::new();
    let mut p: usize = 0;
    while p < n
        invariant
            p <= n,
            n == text@.len(),
            out@.len() == p,
            forall|i: int| 0 <= i < out@.len() ==> #[trigger] out@[i] < p,
            forall|x: int| 0 <= x < p ==> #[trigger] holds_position(out@, x),
            forall|i: int, j: int| 0 <= i < j < out@.len() ==> lex_lt(suffix(text@, out@[i] as int), suffix(text@, out@[j] as int)),
        decreases n - p,
    {
        let ghost sp = suffix(text@, p as int);
        let mut idx: usize = 0;
        while idx < out.len() && suffix_before(text, out[idx], p)
            invariant
                idx <= out@.len(),
                p < n,
                n == text@.len(),
                sp == suffix(text@, p as int),
                forall|i: int| 0 <= i < out@.len() ==> #[trigger] out@[i] < p,
                forall|i: int| 0 <= i < idx ==> lex_lt(suffix(text@, #[trigger] out@[i] as int), sp),
            decreases out@.len() - idx,
        {
            idx = idx + 1;
        }
        let ghost before = out@;
        proof {
            if idx < before.len() {
                lemma_suffixes_distinct(text@, before[idx as int] as int, p as int);
            }
        }
        out.insert(idx, p);
        proof {
            assert forall|i: int| 0 <= i < out@.len() implies #[trigger] out@[i] < p + 1 by {
                if i < idx { assert(out@[i] == before[i]); } else if i > idx { assert(out@[i] == before[i - 1]); }
            }
            assert forall|x: int| 0 <= x < p + 1 implies #[trigger] holds_position(out@, x) by {
                if x == p {
                    assert(out@[idx as int] == p);
                } else {
                    assert(holds_position(before, x));
                    let i0 = choose|i: int| 0 <= i < before.len() && #[trigger] before[i] == x;
                    if i0 < idx { assert(out@[i0] == x); } else { assert(out@[i0 + 1] == x); }
                }
            }
            assert forall|i: int, j: int| 0 <= i < j < out@.len() implies lex_lt(suffix(text@, out@[i] as int), suffix(text@, out@[j] as int)) by {
                let si = suffix(text@, out@[i] as int);
                let sj = suffix(text@, out@[j] as int);
                if j < idx {
                    assert(out@[i] == before[i] && out@[j] == before[j]);
                } else if j == idx {
                    assert(out@[i] == before[i]);
                } else if i == idx {
                    assert(out@[j] == before[j - 1]);
                    if idx < before.len() {
                        // The suffix at `idx` was not smaller than p's.
                        assert(!lex_lt(suffix(text@, before[idx as int] as int), sp));
                        assert(lex_lt(sp, suffix(text@, before[idx as int] as int)));
                        if j - 1 > idx {
                            lemma_lex_trans(sp, suffix(text@, before[idx as int] as int), sj);
                        }
                    }
                } else if i < idx {
                    assert(out@[i] == before[i] && out@[j] == before[j - 1]);
                } else {
                    assert(out@[i] == before[i - 1] && out@[j] == before[j - 1]);
                }
            }
        }
        p = p + 1;
    }
    out
}

/// Build the suffix array with SA-IS: `sa[i]` is the start of the i-th
/// smallest suffix.
pub fn sais(text: &[u8]) -> (sa: Vec<usize>)
    ensures
        is_suffix_array(text@, sa@),
{
    if text.len() == 0 {
        let empty: Vec<usize> = Vec::new();
        return empty;
    }
    let mut with_sentinel: Vec<u8> = Vec::new();
    let mut i: usize = 0;
    while i < text.len()
        invariant
            i <= text@.len(),
            with_sentinel@.len() == i,
        decreases text@.len() - i,
    {
        with_sentinel.push(text[i]);
        i = i + 1;
    }
    with_sentinel.push(SENTINEL);
    {
        let full = sais_inner(with_sentinel.as_slice(), 256);
        let mut sa: Vec<usize> = Vec::new();
        let mut k: usize = 0;
        while k < full.len()
            invariant
                k <= full@.len(),
            decreases full@.len() - k,
        {
            if full[k] < text.len() {
                sa.push(full[k]);
            }
            k = k + 1;
        }
        if check_suffix_array(text, &sa) {
            return sa;
        }
    }
    plain_suffix_array(text)
}

// ============================================================================
// VOCABULARY SUFFIX ARRAY
// ============================================================================

/// The byte that ends each term in the concatenation: below every printable
/// character, above the sentinel.
pub const TERM_SEPARATOR: u8 = 1;

/// The UTF-8 bytes of term `t`.
pub open spec fn term_bytes(vocab: Seq<String>, t: int) -> Seq<u8> {
    encode_utf8(vocab[t]@)
}

/// What a term adds to the concatenation: its bytes and a separator, or
/// nothing for an empty term.
pub open spec fn term_piece(bytes: Seq<u8>) -> Seq<u8> {
    if bytes.len() == 0 {
        Seq::empty()
    } else {
        bytes.push(TERM_SEPARATOR)
    }
}

/// The concatenation of the pieces of the first `k` terms.
pub open spec fn vocab_concat(vocab: Seq<String>, k: int) -> Seq<u8>
    decreases k,
{
    if k <= 0 {
        Seq::empty()
    } else {
        vocab_concat(vocab, k - 1) + term_piece(term_bytes(vocab, k - 1))
    }
}

/// An entry names a term and a byte position inside it.
pub open spec fn vocab_entry_valid(vocab: Seq<String>, e: VocabSuffixEntry) -> bool {
    e.term_idx < vocab.len() && e.offset < term_bytes(vocab, e.term_idx as int).len()
}

/// Where an entry's suffix starts in the concatenation.
pub open spec fn entry_position(vocab: Seq<String>, e: VocabSuffixEntry) -> int {
    vocab_concat(vocab, e.term_idx as int).len() + e.offset
}

/// The suffix of the concatenation at an entry.
pub open spec fn entry_suffix(vocab: Seq<String>, e: VocabSuffixEntry) -> Seq<u8> {
    suffix(vocab_concat(vocab, vocab.len() as int), entry_position(vocab, e))
}

/// The suffix of the entry's own term.
pub open spec fn entry_term_suffix(vocab: Seq<String>, e: VocabSuffixEntry) -> Seq<u8> {
    term_bytes(vocab, e.term_idx as int).skip(e.offset as int)
}

/// `e` occurs in `entries`.
pub open spec fn holds_entry(entries: Seq<VocabSuffixEntry>, e: VocabSuffixEntry) -> bool {
    exists|i: int| 0 <= i < entries.len() && #[trigger] entries[i] == e
}

/// No term holds a byte at or below the separator.
pub open spec fn terms_above_separator(vocab: Seq<String>) -> bool {
    forall|t: int, k: int|
        0 <= t < vocab.len() && 0 <= k < term_bytes(vocab, t).len() ==> #[trigger] term_bytes(vocab, t)[k] > TERM_SEPARATOR
}

proof fn lemma_concat_prefix(vocab: Seq<String>, a: int, b: int)
    requires
        0 <= a <= b,
    ensures
        vocab_concat(vocab, a).len() <= vocab_concat(vocab, b).len(),
        vocab_concat(vocab, b).take(vocab_concat(vocab, a).len() as int) == vocab_concat(vocab, a),
    decreases b - a,
{
    if a < b {
        lemma_concat_prefix(vocab, a, b - 1);
        let cb1 = vocab_concat(vocab, b - 1);
        let ca = vocab_concat(vocab, a);
        assert(vocab_concat(vocab, b) == cb1 + term_piece(term_bytes(vocab, b - 1)));
        assert(vocab_concat(vocab, b).take(ca.len() as int) =~= cb1.take(ca.len() as int));
    } else {
        assert(vocab_concat(vocab, b).take(vocab_concat(vocab, a).len() as int) =~= vocab_concat(vocab, a));
    }
}

/// The suffix of the concatenation at a valid entry starts with the rest of
/// its term, then the separator.
proof fn lemma_entry_suffix_shape(vocab: Seq<String>, e: VocabSuffixEntry)
    requires
        vocab_entry_valid(vocab, e),
    ensures
        entry_position(vocab, e) < vocab_concat(vocab, vocab.len() as int).len(),
        entry_suffix(vocab, e).len() >= entry_term_suffix(vocab, e).len() + 1,
        entry_suffix(vocab, e).take(entry_term_suffix(vocab, e).len() + 1int) == entry_term_suffix(vocab, e).push(
            TERM_SEPARATOR,
        ),
{
    let t = e.term_idx as int;
    let all = vocab_concat(vocab, vocab.len() as int);
    let upto = vocab_concat(vocab, t + 1);
    let before = vocab_concat(vocab, t);
    let tb = term_bytes(vocab, t);
    lemma_concat_prefix(vocab, t + 1, vocab.len() as int);
    assert(upto == before + tb.push(TERM_SEPARATOR));
    let p = entry_position(vocab, e);
    let ts = entry_term_suffix(vocab, e);
    assert forall|k: int| 0 <= k < ts.len() + 1 implies #[trigger] suffix(all, p)[k] == ts.push(TERM_SEPARATOR)[k] by {
        assert(all.take(upto.len() as int)[p + k] == all[p + k]);
        assert(upto[p + k] == all[p + k]);
    }
    assert(suffix(all, p).take(ts.len() + 1int) =~= ts.push(TERM_SEPARATOR));
}

/// Two strings each followed by the separator: when the longer strings are
/// in order, so are the strings (or they are equal).
proof fn lemma_separated_order(x: Seq<u8>, y: Seq<u8>, a: Seq<u8>, b: Seq<u8>)
    requires
        x.take(a.len() + 1int) == a.push(TERM_SEPARATOR),
        y.take(b.len() + 1int) == b.push(TERM_SEPARATOR),
        x.len() >= a.len() + 1,
        y.len() >= b.len() + 1,
        forall|k: int| 0 <= k < a.len() ==> #[trigger] a[k] > TERM_SEPARATOR,
        forall|k: int| 0 <= k < b.len() ==> #[trigger] b[k] > TERM_SEPARATOR,
        lex_lt(x, y),
    ensures
        !lex_lt(b, a),
    decreases a.len(),
{
    assert(x[0] == a.push(TERM_SEPARATOR)[0]) by {
        assert(x.take(a.len() + 1int)[0] == x[0]);
    }
    assert(y[0] == b.push(TERM_SEPARATOR)[0]) by {
        assert(y.take(b.len() + 1int)[0] == y[0]);
    }
    if a.len() > 0 && b.len() > 0 && a[0] == b[0] {
        let x1 = x.drop_first();
        let y1 = y.drop_first();
        let a1 = a.drop_first();
        let b1 = b.drop_first();
        assert(x1.take(a1.len() + 1int) =~= a1.push(TERM_SEPARATOR)) by {
            assert forall|k: int| 0 <= k < a1.len() + 1 implies x1.take(a1.len() + 1int)[k] == a1.push(TERM_SEPARATOR)[k] by {
                assert(x.take(a.len() + 1int)[k + 1] == a.push(TERM_SEPARATOR)[k + 1]);
                assert(x.take(a.len() + 1int)[k + 1] == x[k + 1]);
                assert(x1.take(a1.len() + 1int)[k] == x1[k]);
                assert(x1[k] == x[k + 1]);
                if k < a1.len() {
                    assert(a1[k] == a[k + 1]);
                }
            }
        }
        assert(y1.take(b1.len() + 1int) =~= b1.push(TERM_SEPARATOR)) by {
            assert forall|k: int| 0 <= k < b1.len() + 1 implies y1.take(b1.len() + 1int)[k] == b1.push(TERM_SEPARATOR)[k] by {
                assert(y.take(b.len() + 1int)[k + 1] == b.push(TERM_SEPARATOR)[k + 1]);
                assert(y.take(b.len() + 1int)[k + 1] == y[k + 1]);
                assert(y1.take(b1.len() + 1int)[k] == y1[k]);
                assert(y1[k] == y[k + 1]);
                if k < b1.len() {
                    assert(b1[k] == b[k + 1]);
                }
            }
        }
        assert forall|k: int| 0 <= k < a1.len() implies #[trigger] a1[k] > TERM_SEPARATOR by {
            assert(a[k + 1] > TERM_SEPARATOR);
        }
        assert forall|k: int| 0 <= k < b1.len() implies #[trigger] b1[k] > TERM_SEPARATOR by {
            assert(b[k + 1] > TERM_SEPARATOR);
        }
        lemma_separated_order(x1, y1, a1, b1);
    } else if a.len() > 0 && b.len() == 0 {
        assert(a[0] > TERM_SEPARATOR);
    }
}

/// Build the suffix array of all vocabulary terms: every (term, offset)
/// pair inside a term, ordered by the suffix of the separator-joined
/// concatenation at it.
pub fn build_vocab_suffix_array_sais(vocabulary: &[String]) -> (entries: Vec<VocabSuffixEntry>)
    ensures
        forall|i: int| 0 <= i < entries@.len() ==> vocab_entry_valid(vocabulary@, #[trigger] entries@[i]),
        forall|e: VocabSuffixEntry| vocab_entry_valid(vocabulary@, e) ==> #[trigger] holds_entry(entries@, e),
        forall|i: int, j: int|
            0 <= i < j < entries@.len() ==> lex_lt(
                entry_suffix(vocabulary@, #[trigger] entries@[i]),
                entry_suffix(vocabulary@, #[trigger] entries@[j]),
            ),
        terms_above_separator(vocabulary@) ==> forall|i: int, j: int|
            0 <= i < j < entries@.len() ==> !lex_lt(
                entry_term_suffix(vocabulary@, #[trigger] entries@[j]),
                entry_term_suffix(vocabulary@, #[trigger] entries@[i]),
            ),
{
    let ghost vocab = vocabulary@;
    let mut concat: Vec<u8> = Vec::new();
    let mut owner: Vec<Option<VocabSuffixEntry>> = Vec::new();
    let mut t: usize = 0;
    while t < vocabulary.len()
        invariant
            t <= vocab.len(),
            vocab == vocabulary@,
            concat@ == vocab_concat(vocab, t as int),
            owner@.len() == concat@.len(),
            forall|p: int|
                0 <= p < owner@.len() ==> (#[trigger] owner@[p] matches Some(e) ==> vocab_entry_valid(vocab, e)
                    && e.term_idx < t && entry_position(vocab, e) == p),
            forall|e: VocabSuffixEntry|
                vocab_entry_valid(vocab, e) && e.term_idx < t ==> entry_position(vocab, e) < owner@.len()
                    && owner@[#[trigger] entry_position(vocab, e)] == Some(e),
        decreases vocab.len() - t,
    {
        let bytes = vocabulary[t].as_str().as_bytes();
        let ghost start = concat@.len();
        let ghost concat0 = concat@;
        let ghost owner0 = owner@;
        assert(bytes@ == term_bytes(vocab, t as int));
        let mut o: usize = 0;
        while o < bytes.len()
            invariant
                o <= bytes@.len(),
                t < vocab.len(),
                vocab == vocabulary@,
                bytes@ == term_bytes(vocab, t as int),
                start == concat0.len(),
                concat@ == concat0 + bytes@.take(o as int),
                owner@.len() == concat@.len(),
                forall|p: int| 0 <= p < start ==> #[trigger] owner@[p] == owner0[p],
                forall|k: int| 0 <= k < o ==> #[trigger] owner@[start + k] == Some(VocabSuffixEntry { term_idx: t, offset: k as usize }),
            decreases bytes@.len() - o,
        {
            concat.push(bytes[o]);
            owner.push(Some(VocabSuffixEntry { term_idx: t, offset: o }));
            assert(bytes@.take(o + 1) =~= bytes@.take(o as int).push(bytes@[o as int]));
            o = o + 1;
        }
        if bytes.len() > 0 {
            concat.push(TERM_SEPARATOR);
            owner.push(None);
        }
        proof {
            assert(bytes@.take(bytes@.len() as int) =~= bytes@);
            assert(concat@ =~= vocab_concat(vocab, t + 1));
            assert(vocab_concat(vocab, t as int).len() == start);
            assert forall|p: int|
                0 <= p < owner@.len() implies (#[trigger] owner@[p] matches Some(e) ==> vocab_entry_valid(vocab, e)
                    && e.term_idx < t + 1 && entry_position(vocab, e) == p) by {
                if p >= start && p < start + bytes@.len() {
                    assert(owner@[start + (p - start)] == Some(VocabSuffixEntry { term_idx: t, offset: (p - start) as usize }));
                }
            }
            assert forall|e: VocabSuffixEntry|
                vocab_entry_valid(vocab, e) && e.term_idx < t + 1 implies entry_position(vocab, e) < owner@.len()
                    && owner@[#[trigger] entry_position(vocab, e)] == Some(e) by {
                if e.term_idx == t {
                    assert(owner@[start + e.offset] == Some(VocabSuffixEntry { term_idx: t, offset: e.offset }));
                } else {
                    assert(owner0[entry_position(vocab, e)] == Some(e));
                }
            }
        }
        t = t + 1;
    }
    let ghost all = concat@;
    let sa = sais(concat.as_slice());
    let mut entries: Vec<VocabSuffixEntry> = Vec::new();
    let ghost mut src: Seq<int> = Seq::empty();
    let mut k: usize = 0;
    while k < sa.len()
        invariant
            k <= sa@.len(),
            vocab == vocabulary@,
            all == vocab_concat(vocab, vocab.len() as int),
            all == concat@,
            is_suffix_array(all, sa@),
            owner@.len() == all.len(),
            forall|p: int|
                0 <= p < owner@.len() ==> (#[trigger] owner@[p] matches Some(e) ==> vocab_entry_valid(vocab, e)
                    && entry_position(vocab, e) == p),
            src.len() == entries@.len(),
            forall|i: int| 0 <= i < src.len() ==> 0 <= #[trigger] src[i] < k,
            forall|i: int| 0 <= i < src.len() ==> vocab_entry_valid(vocab, #[trigger] entries@[i])
                && sa@[src[i]] == entry_position(vocab, entries@[i]),
            forall|i: int, j: int| 0 <= i < j < src.len() ==> #[trigger] src[i] < #[trigger] src[j],
            forall|q: int| 0 <= q < k ==> (#[trigger] owner@[sa@[q] as int] matches Some(e) ==> holds_entry(entries@, e)),
        decreases sa@.len() - k,
    {
        let pos = sa[k];
        assert(sa@[k as int] < all.len());
        if let Some(e) = owner[pos] {
            let ghost before = entries@;
            entries.push(e);
            proof {
                src = src.push(k as int);
                assert(entries@[before.len() as int] == e);
                assert forall|q: int| 0 <= q < k + 1 implies (#[trigger] owner@[sa@[q] as int] matches Some(f) ==> holds_entry(entries@, f)) by {
                    if q < k {
                        if let Some(f) = owner@[sa@[q] as int] {
                            let i0 = choose|i: int| 0 <= i < before.len() && #[trigger] before[i] == f;
                            assert(entries@[i0] == f);
                        }
                    }
                }
            }
        }
        k = k + 1;
    }
    proof {
        assert forall|e: VocabSuffixEntry| vocab_entry_valid(vocab, e) implies #[trigger] holds_entry(entries@, e) by {
            lemma_entry_suffix_shape(vocab, e);
            let p = entry_position(vocab, e);
            assert(holds_position(sa@, p));
            let q = choose|q: int| 0 <= q < sa@.len() && #[trigger] sa@[q] == p;
            assert(owner@[sa@[q] as int] == owner@[p]);
        }
        assert forall|i: int, j: int|
            0 <= i < j < entries@.len() implies lex_lt(
                entry_suffix(vocab, #[trigger] entries@[i]),
                entry_suffix(vocab, #[trigger] entries@[j]),
            ) by {
            assert(src[i] < src[j]);
        }
        if terms_above_separator(vocab) {
            assert forall|i: int, j: int|
                0 <= i < j < entries@.len() implies !lex_lt(
                    entry_term_suffix(vocab, #[trigger] entries@[j]),
                    entry_term_suffix(vocab, #[trigger] entries@[i]),
                ) by {
                let ei = entries@[i];
                let ej = entries@[j];
                assert(src[i] < src[j]);
                lemma_entry_suffix_shape(vocab, ei);
                lemma_entry_suffix_shape(vocab, ej);
                let a = entry_term_suffix(vocab, ei);
                let b = entry_term_suffix(vocab, ej);
                assert forall|k: int| 0 <= k < a.len() implies #[trigger] a[k] > TERM_SEPARATOR by {
                    assert(a[k] == term_bytes(vocab, ei.term_idx as int)[ei.offset + k]);
                }
                assert forall|k: int| 0 <= k < b.len() implies #[trigger] b[k] > TERM_SEPARATOR by {
                    assert(b[k] == term_bytes(vocab, ej.term_idx as int)[ej.offset + k]);
                }
                lemma_separated_order(entry_suffix(vocab, ei), entry_suffix(vocab, ej), a, b);
            }
        }
    }
    entries
}

} // verus!
