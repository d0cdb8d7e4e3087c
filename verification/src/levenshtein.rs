//! Edit distance with early exits.
//!
//! `|len(a) - len(b)|` is a lower bound on the edit distance, so strings whose
//! lengths differ by more than the threshold are rejected before any DP; and
//! since the minimum of a DP row never decreases from one row to the next,
//! a row whose minimum exceeds the threshold ends the computation.

use vstd::prelude::*;
use vstd::std_specs::iter::IteratorSpec;

verus! {

broadcast use {vstd::string::axiom_spec_iter, vstd::string::next_postcondition};

/// The smallest of three numbers.
pub open spec fn min3(x: nat, y: nat, z: nat) -> nat {
    if x <= y && x <= z {
        x
    } else if y <= z {
        y
    } else {
        z
    }
}

/// The Levenshtein distance: the fewest single-character insertions,
/// deletions and substitutions that turn `a` into `b`.
pub open spec fn edit_distance(a: Seq<char>, b: Seq<char>) -> nat
    decreases a.len() + b.len(),
{
    if a.len() == 0 {
        b.len()
    } else if b.len() == 0 {
        a.len()
    } else {
        min3(
            edit_distance(a.drop_last(), b) + 1,
            edit_distance(a, b.drop_last()) + 1,
            edit_distance(a.drop_last(), b.drop_last()) + (if a.last() == b.last() { 0nat } else { 1nat }),
        )
    }
}

/// The distance between the first `i` characters of `a` and the first `j`
/// of `b`: cell `(i, j)` of the DP table.
pub open spec fn dist(a: Seq<char>, b: Seq<char>, i: int, j: int) -> nat {
    edit_distance(a.take(i), b.take(j))
}

pub(crate) proof fn lemma_dist_step(a: Seq<char>, b: Seq<char>, i: int, j: int)
    requires
        0 < i <= a.len(),
        0 < j <= b.len(),
    ensures
        dist(a, b, i, j) == min3(
            dist(a, b, i - 1, j) + 1,
            dist(a, b, i, j - 1) + 1,
            dist(a, b, i - 1, j - 1) + (if a[i - 1] == b[j - 1] { 0nat } else { 1nat }),
        ),
{
    let x = a.take(i);
    let y = b.take(j);
    assert(x.drop_last() =~= a.take(i - 1));
    assert(y.drop_last() =~= b.take(j - 1));
    assert(x.last() == a[i - 1]);
    assert(y.last() == b[j - 1]);
}

pub(crate) proof fn lemma_dist_edges(a: Seq<char>, b: Seq<char>, i: int, j: int)
    requires
        0 <= i <= a.len(),
        0 <= j <= b.len(),
    ensures
        dist(a, b, 0, j) == j,
        dist(a, b, i, 0) == i,
{
    assert(a.take(0).len() == 0);
    assert(b.take(0).len() == 0);
}

/// The edit distance is at least the difference in length.
pub proof fn lemma_length_difference_bound(a: Seq<char>, b: Seq<char>)
    ensures
        edit_distance(a, b) >= a.len() - b.len(),
        edit_distance(a, b) >= b.len() - a.len(),
    decreases a.len() + b.len(),
{
    if a.len() > 0 && b.len() > 0 {
        lemma_length_difference_bound(a.drop_last(), b);
        lemma_length_difference_bound(a, b.drop_last());
        lemma_length_difference_bound(a.drop_last(), b.drop_last());
    }
}

proof fn lemma_edit_distance_self(a: Seq<char>)
    ensures
        edit_distance(a, a) == 0,
    decreases a.len(),
{
    if a.len() > 0 {
        lemma_edit_distance_self(a.drop_last());
    }
}

/// A string is no edit away from itself, and only from itself.
pub proof fn lemma_edit_distance_zero(a: Seq<char>, b: Seq<char>)
    ensures
        edit_distance(a, a) == 0,
        edit_distance(a, b) == 0 <==> a == b,
    decreases a.len() + b.len(),
{
    lemma_edit_distance_self(a);
    if a.len() > 0 && b.len() > 0 {
        lemma_edit_distance_zero(a.drop_last(), b.drop_last());
        if edit_distance(a, b) == 0 {
            assert(a.drop_last() == b.drop_last());
            assert(a =~= a.drop_last().push(a.last()));
            assert(b =~= b.drop_last().push(b.last()));
        }
    }
    if a.len() == 0 && b.len() == 0 {
        assert(a =~= b);
    }
}

/// Turning `a` into `b` takes as many edits as turning `b` into `a`.
pub proof fn lemma_edit_distance_symmetric(a: Seq<char>, b: Seq<char>)
    ensures
        edit_distance(a, b) == edit_distance(b, a),
    decreases a.len() + b.len(),
{
    if a.len() > 0 && b.len() > 0 {
        lemma_edit_distance_symmetric(a.drop_last(), b);
        lemma_edit_distance_symmetric(a, b.drop_last());
        lemma_edit_distance_symmetric(a.drop_last(), b.drop_last());
    }
}

/// No more edits are needed than the longer string has characters.
pub proof fn lemma_edit_distance_at_most_longer(a: Seq<char>, b: Seq<char>)
    ensures
        edit_distance(a, b) <= if a.len() >= b.len() { a.len() } else { b.len() },
    decreases a.len() + b.len(),
{
    if a.len() > 0 && b.len() > 0 {
        lemma_edit_distance_at_most_longer(a.drop_last(), b.drop_last());
    }
}

/// Appending one character, or replacing the last one by another, is one
/// edit.
pub proof fn lemma_edit_distance_one_edit(a: Seq<char>, c: char, d: char)
    ensures
        edit_distance(a, a.push(c)) == 1,
        edit_distance(a.push(c), a) == 1,
        c != d ==> edit_distance(a.push(c), a.push(d)) == 1,
{
    let ac = a.push(c);
    let ad = a.push(d);
    assert(ac.drop_last() =~= a);
    assert(ad.drop_last() =~= a);
    lemma_edit_distance_zero(a, a);
    lemma_length_difference_bound(a, ac);
    lemma_edit_distance_symmetric(a, ac);
    if c != d {
        assert(ac.last() != ad.last());
        lemma_edit_distance_zero(ac, ad);
        assert(ac != ad) by {
            assert(ac[a.len() as int] != ad[a.len() as int]);
        }
    }
}

/// Every cell of a row is at least the smallest cell of the row above.
proof fn lemma_next_row_bound(a: Seq<char>, b: Seq<char>, i: int, r: nat, j: int)
    requires
        0 <= i < a.len(),
        0 <= j <= b.len(),
        forall|k: int| 0 <= k <= b.len() ==> #[trigger] dist(a, b, i, k) >= r,
    ensures
        dist(a, b, i + 1, j) >= r,
    decreases j,
{
    if j == 0 {
        lemma_dist_edges(a, b, i + 1, 0);
        lemma_dist_edges(a, b, i, 0);
        assert(dist(a, b, i, 0) >= r);
    } else {
        lemma_next_row_bound(a, b, i, r, j - 1);
        lemma_dist_step(a, b, i + 1, j);
        assert(dist(a, b, i, j) >= r);
        assert(dist(a, b, i, j - 1) >= r);
    }
}

/// A bound on every cell of row `i` bounds the last cell of the table.
pub(crate) proof fn lemma_rows_bound(a: Seq<char>, b: Seq<char>, i: int, r: nat)
    requires
        0 <= i <= a.len(),
        forall|k: int| 0 <= k <= b.len() ==> #[trigger] dist(a, b, i, k) >= r,
    ensures
        dist(a, b, a.len() as int, b.len() as int) >= r,
    decreases a.len() - i,
{
    if i < a.len() {
        assert forall|k: int| 0 <= k <= b.len() implies #[trigger] dist(a, b, i + 1, k) >= r by {
            lemma_next_row_bound(a, b, i, r, k);
        }
        lemma_rows_bound(a, b, i + 1, r);
    }
}

pub(crate) fn chars_of(s: &str) -> (r: Vec<char>)
    ensures
        r@ == s@,
{
    let mut it = s.chars();
    let mut out: Vec<char> = Vec::new();
    loop
        invariant_except_break
            out@ + it.remaining() == s@,
            it.decrease() is Some,
            it.obeys_prophetic_iter_laws(),
        ensures
            out@ == s@,
        decreases it.decrease()->0,
    {
        let ghost before = it.remaining();
        match it.next() {
            Some(c) => {
                out.push(c);
                assert(out@ + it.remaining() =~= s@) by {
                    assert(before =~= seq![c] + before.drop_first());
                }
            },
            None => {
                assert(out@ =~= s@);
                break;
            },
        }
    }
    out
}

/// Are these strings within `max` edits of each other?
///
/// Bounded Levenshtein with two early exits: a length difference above `max`,
/// and a DP row whose minimum is above `max`.
pub fn levenshtein_within(a: &str, b: &str, max: usize) -> (r: bool)
    requires
        a@.len() < usize::MAX,
        b@.len() < usize::MAX,
    ensures
        r == (edit_distance(a@, b@) <= max),
{
    let ac = chars_of(a);
    let bc = chars_of(b);
    let a_len = ac.len();
    let b_len = bc.len();
    let ghost sa = a@;
    let ghost sb = b@;
    proof {
        lemma_length_difference_bound(sa, sb);
        assert(sa.take(a_len as int) =~= sa);
        assert(sb.take(b_len as int) =~= sb);
    }

    let diff = if a_len >= b_len { a_len - b_len } else { b_len - a_len };
    if diff > max {
        return false;
    }

    let mut dp: Vec<usize> = Vec::new();
    let mut k: usize = 0;
    while k <= b_len
        invariant
            b_len == sb.len(),
            b_len < usize::MAX,
            k <= b_len + 1,
            dp@.len() == k,
            forall|m: int| 0 <= m < k ==> dp@[m] == m,
        decreases b_len + 1 - k,
    {
        dp.push(k);
        k = k + 1;
    }
    proof {
        assert forall|m: int| 0 <= m <= b_len implies dp@[m] == dist(sa, sb, 0, m) by {
            lemma_dist_edges(sa, sb, 0, m);
        }
    }

    let mut i: usize = 0;
    while i < a_len
        invariant
            a_len == sa.len(),
            b_len == sb.len(),
            a_len < usize::MAX,
            b_len < usize::MAX,
            ac@ == sa,
            bc@ == sb,
            sa == a@,
            sb == b@,
            i <= a_len,
            dp@.len() == b_len + 1,
            forall|m: int| 0 <= m <= b_len ==> dp@[m] == dist(sa, sb, i as int, m),
            dist(sa, sb, a_len as int, b_len as int) == edit_distance(sa, sb),
        decreases a_len - i,
    {
        let ch = ac[i];
        let mut prev = dp[0];
        proof {
            lemma_dist_edges(sa, sb, i as int + 1, 0);
        }
        dp.set(0, i + 1);
        let mut min_row = dp[0];
        let mut j: usize = 0;
        while j < b_len
            invariant
                a_len == sa.len(),
                b_len == sb.len(),
                a_len < usize::MAX,
                b_len < usize::MAX,
                ac@ == sa,
                bc@ == sb,
                sa == a@,
                sb == b@,
                i < a_len,
                ch == sa[i as int],
                j <= b_len,
                dp@.len() == b_len + 1,
                forall|m: int| 0 <= m <= j ==> dp@[m] == dist(sa, sb, i as int + 1, m),
                forall|m: int| j < m <= b_len ==> dp@[m] == dist(sa, sb, i as int, m),
                prev == dist(sa, sb, i as int, j as int),
                dist(sa, sb, a_len as int, b_len as int) == edit_distance(sa, sb),
                forall|m: int| 0 <= m <= j ==> min_row <= #[trigger] dist(sa, sb, i as int + 1, m),
                exists|m: int| 0 <= m <= j && min_row == #[trigger] dist(sa, sb, i as int + 1, m),
            decreases b_len - j,
        {
            let temp = dp[j + 1];
            let cost: usize = if ch == bc[j] { 0 } else { 1 };
            proof {
                lemma_dist_step(sa, sb, i as int + 1, j as int + 1);
                lemma_length_difference_bound(sa.take(i as int), sb.take(j as int + 1));
                lemma_length_difference_bound(sa.take(i as int + 1), sb.take(j as int));
                lemma_dist_upper(sa, sb, i as int, j as int + 1);
                lemma_dist_upper(sa, sb, i as int + 1, j as int);
                lemma_dist_upper(sa, sb, i as int, j as int);
            }
            let up = dp[j + 1] + 1;
            let left = dp[j] + 1;
            let diag = prev + cost;
            let mut best = if up < left { up } else { left };
            if diag < best {
                best = diag;
            }
            dp.set(j + 1, best);
            prev = temp;
            if dp[j + 1] < min_row {
                min_row = dp[j + 1];
            }
            j = j + 1;
        }
        if min_row > max {
            proof {
                assert forall|k: int| 0 <= k <= sb.len() implies #[trigger] dist(sa, sb, i as int + 1, k) >= max + 1 by {
                    assert(min_row <= dist(sa, sb, i as int + 1, k));
                }
                lemma_rows_bound(sa, sb, i as int + 1, (max + 1) as nat);
            }
            return false;
        }
        i = i + 1;
    }
    dp[b_len] <= max
}

/// A cell is at most the larger of its two prefix lengths.
pub(crate) proof fn lemma_dist_upper(a: Seq<char>, b: Seq<char>, i: int, j: int)
    requires
        0 <= i <= a.len(),
        0 <= j <= b.len(),
    ensures
        dist(a, b, i, j) <= if i >= j { i } else { j },
    decreases i + j,
{
    if i == 0 || j == 0 {
        lemma_dist_edges(a, b, i, j);
    } else {
        lemma_dist_step(a, b, i, j);
        lemma_dist_upper(a, b, i - 1, j - 1);
        lemma_dist_upper(a, b, i - 1, j);
        lemma_dist_upper(a, b, i, j - 1);
    }
}

} // verus!
