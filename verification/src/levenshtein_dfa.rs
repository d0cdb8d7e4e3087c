//! Parametric Levenshtein automaton (Schulz-Mihov) with compact serialization.
//!
//! The DFA is query-independent: only the character classes depend on the
//! query. Serialized layout:
//!
//! ```text
//! Header (8 bytes): num_states u16 LE, max_distance u8, flags u8
//!                   (bit 0 = transpositions), 4 reserved bytes
//! Accept array (num_states bytes): distance if accepting, 0xFF if not
//! Transitions (num_states * 8 * 2 bytes): u16 LE next state per class,
//!                   0xFFFF for the dead state
//! ```

use vstd::prelude::*;

use crate::levenshtein::{
    chars_of, dist, edit_distance, lemma_dist_edges, lemma_dist_step, lemma_dist_upper,
    lemma_length_difference_bound, lemma_rows_bound,
};

verus! {

/// Maximum edit distance (k=2 is standard for search)
pub const MAX_K: u8 = 2;

/// Number of character classes: 2^(k+1) = 8 for k=2
pub const NUM_CHAR_CLASSES: usize = 8;

/// Dead state marker
pub const DEAD_STATE: u16 = 0xFFFF;

/// Not accepting marker
pub const NOT_ACCEPTING: u8 = 0xFF;

/// Why a serialized DFA was rejected.
#[derive(Debug, Clone, Copy, PartialEq, Eq, Structural)]
pub enum DfaError {
    HeaderTooShort,
    UnsupportedMaxDistance,
    AcceptArrayTooShort,
    TransitionsArrayTooShort,
}

impl DfaError {
    /// The description `message` gives for each failure.
    pub open spec fn spec_message(self) -> Seq<char> {
        match self {
            DfaError::HeaderTooShort => "Header too short"@,
            DfaError::UnsupportedMaxDistance => "Unsupported max distance"@,
            DfaError::AcceptArrayTooShort => "Accept array too short"@,
            DfaError::TransitionsArrayTooShort => "Transitions array too short"@,
        }
    }

    /// A description of the failure.
    pub fn message(&self) -> (r: &'static str)
        ensures
            r@ == self.spec_message(),
    {
        match self {
            DfaError::HeaderTooShort => "Header too short",
            DfaError::UnsupportedMaxDistance => "Unsupported max distance",
            DfaError::AcceptArrayTooShort => "Accept array too short",
            DfaError::TransitionsArrayTooShort => "Transitions array too short",
        }
    }
}

/// Compiled parametric Levenshtein DFA
#[derive(Debug, Clone)]
pub struct ParametricDFA {
    /// Accept distances for each state (NOT_ACCEPTING if not accepting)
    pub accept: Vec<u8>,
    /// Transitions: [state * NUM_CHAR_CLASSES + char_class] = next_state
    pub transitions: Vec<u16>,
    /// Number of states
    pub num_states: u16,
    /// Whether transpositions are enabled
    pub with_transpositions: bool,
}

/// The two little-endian bytes of `v`.
pub open spec fn spec_u16_bytes(v: u16) -> Seq<u8> {
    seq![(v % 256) as u8, (v / 256) as u8]
}

/// The transitions, two bytes each.
pub open spec fn spec_transition_bytes(t: Seq<u16>) -> Seq<u8>
    decreases t.len(),
{
    if t.len() == 0 {
        Seq::empty()
    } else {
        spec_transition_bytes(t.drop_last()) + spec_u16_bytes(t.last())
    }
}

/// The serialized DFA.
pub open spec fn spec_dfa_bytes(num_states: u16, with_transpositions: bool, accept: Seq<u8>, transitions: Seq<u16>) -> Seq<u8> {
    spec_u16_bytes(num_states) + seq![MAX_K, if with_transpositions { 1u8 } else { 0u8 }, 0u8, 0u8, 0u8, 0u8]
        + accept + spec_transition_bytes(transitions)
}

/// The little-endian u16 at `at`.
pub open spec fn spec_read_u16_le(bytes: Seq<u8>, at: int) -> u16 {
    (bytes[at] + 256 * bytes[at + 1]) as u16
}

/// `k` little-endian u16 values from `at` on.
pub open spec fn spec_read_transitions(bytes: Seq<u8>, at: int, k: nat) -> Seq<u16> {
    Seq::new(k, |i: int| spec_read_u16_le(bytes, at + 2 * i))
}

/// What a DFA read from `bytes` holds: (num_states, transpositions, accept,
/// transitions), or why the bytes were rejected.
pub open spec fn spec_dfa_from_bytes(bytes: Seq<u8>) -> Result<(u16, bool, Seq<u8>, Seq<u16>), DfaError> {
    if bytes.len() < 8 {
        Err(DfaError::HeaderTooShort)
    } else if bytes[2] != MAX_K {
        Err(DfaError::UnsupportedMaxDistance)
    } else {
        let n = spec_read_u16_le(bytes, 0);
        let accept_end = 8 + n;
        if bytes.len() < accept_end {
            Err(DfaError::AcceptArrayTooShort)
        } else if bytes.len() - accept_end < 16 * n {
            Err(DfaError::TransitionsArrayTooShort)
        } else {
            Ok((n, bytes[3] % 2 == 1, bytes.subrange(8, accept_end), spec_read_transitions(bytes, accept_end, (8 * n) as nat)))
        }
    }
}

proof fn lemma_transition_bytes_len(t: Seq<u16>)
    ensures
        spec_transition_bytes(t).len() == 2 * t.len(),
    decreases t.len(),
{
    if t.len() > 0 {
        lemma_transition_bytes_len(t.drop_last());
    }
}

proof fn lemma_transition_bytes_at(t: Seq<u16>, i: int)
    requires
        0 <= i < t.len(),
    ensures
        spec_transition_bytes(t)[2 * i] == spec_u16_bytes(t[i])[0],
        spec_transition_bytes(t)[2 * i + 1] == spec_u16_bytes(t[i])[1],
    decreases t.len(),
{
    lemma_transition_bytes_len(t.drop_last());
    if i < t.len() - 1 {
        lemma_transition_bytes_at(t.drop_last(), i);
    }
}

impl ParametricDFA {
    /// The DFA has one accept entry and eight transitions per state.
    pub open spec fn wf(&self) -> bool {
        &&& self.accept@.len() == self.num_states
        &&& self.transitions@.len() == NUM_CHAR_CLASSES * self.num_states
    }

    /// Serialize to bytes (header, accept array, transitions).
    pub fn to_bytes(&self) -> (r: Vec<u8>)
        ensures
            r@ == spec_dfa_bytes(self.num_states, self.with_transpositions, self.accept@, self.transitions@),
    {
        let mut bytes: Vec<u8> = Vec::new();
        bytes.push((self.num_states % 256) as u8);
        bytes.push((self.num_states / 256) as u8);
        bytes.push(MAX_K);
        bytes.push(if self.with_transpositions { 1 } else { 0 });
        bytes.push(0);
        bytes.push(0);
        bytes.push(0);
        bytes.push(0);
        let mut i: usize = 0;
        while i < self.accept.len()
            invariant
                i <= self.accept@.len(),
                bytes@ == spec_u16_bytes(self.num_states) + seq![MAX_K, if self.with_transpositions { 1u8 } else { 0u8 }, 0u8, 0u8, 0u8, 0u8]
                    + self.accept@.take(i as int),
            decreases self.accept@.len() - i,
        {
            bytes.push(self.accept[i]);
            assert(self.accept@.take(i as int + 1) =~= self.accept@.take(i as int).push(self.accept@[i as int]));
            i = i + 1;
        }
        assert(self.accept@.take(self.accept@.len() as int) =~= self.accept@);
        let ghost head = bytes@;
        let mut k: usize = 0;
        while k < self.transitions.len()
            invariant
                k <= self.transitions@.len(),
                bytes@ == head + spec_transition_bytes(self.transitions@.take(k as int)),
            decreases self.transitions@.len() - k,
        {
            let t = self.transitions[k];
            bytes.push((t % 256) as u8);
            bytes.push((t / 256) as u8);
            assert(self.transitions@.take(k as int + 1).drop_last() =~= self.transitions@.take(k as int));
            assert(bytes@ =~= head + spec_transition_bytes(self.transitions@.take(k as int + 1)));
            k = k + 1;
        }
        assert(self.transitions@.take(self.transitions@.len() as int) =~= self.transitions@);
        bytes
    }

    /// Deserialize from bytes.
    pub fn from_bytes(bytes: &[u8]) -> (r: Result<Self, DfaError>)
        ensures
            match spec_dfa_from_bytes(bytes@) {
                Ok((n, t, a, tr)) => r matches Ok(d) && d.num_states == n && d.with_transpositions == t
                    && d.accept@ == a && d.transitions@ == tr && d.wf(),
                Err(e) => r == Err::<ParametricDFA, DfaError>(e),
            },
    {
        if bytes.len() < 8 {
            return Err(DfaError::HeaderTooShort);
        }
        let num_states: u16 = (bytes[0] as u16) + 256 * (bytes[1] as u16);
        let max_k = bytes[2];
        let with_transpositions = bytes[3] % 2 == 1;
        if max_k != MAX_K {
            return Err(DfaError::UnsupportedMaxDistance);
        }
        let accept_end = 8 + num_states as usize;
        if bytes.len() < accept_end {
            return Err(DfaError::AcceptArrayTooShort);
        }
        let mut accept: Vec<u8> = Vec::new();
        let mut i: usize = 8;
        while i < accept_end
            invariant
                8 <= i <= accept_end <= bytes@.len(),
                accept@ == bytes@.subrange(8, i as int),
            decreases accept_end - i,
        {
            accept.push(bytes[i]);
            assert(bytes@.subrange(8, i as int + 1) =~= bytes@.subrange(8, i as int).push(bytes@[i as int]));
            i = i + 1;
        }
        let expected = num_states as usize * NUM_CHAR_CLASSES;
        if bytes.len() - accept_end < expected * 2 {
            return Err(DfaError::TransitionsArrayTooShort);
        }
        let mut transitions: Vec<u16> = Vec::new();
        assert(bytes@.len() == bytes.len());
        let mut k: usize = 0;
        while k < expected
            invariant
                k <= expected,
                expected == 8 * num_states,
                accept_end + 2 * expected <= bytes@.len(),
                bytes@.len() <= usize::MAX,
                transitions@ == spec_read_transitions(bytes@, accept_end as int, k as nat),
            decreases expected - k,
        {
            let at = accept_end + 2 * k;
            let v: u16 = (bytes[at] as u16) + 256 * (bytes[at + 1] as u16);
            transitions.push(v);
            assert(transitions@ =~= spec_read_transitions(bytes@, accept_end as int, (k + 1) as nat));
            k = k + 1;
        }
        Ok(ParametricDFA { accept, transitions, num_states, with_transpositions })
    }

    /// Serialized size in bytes.
    pub fn serialized_size(&self) -> (n: usize)
        requires
            8 + self.accept@.len() + 2 * self.transitions@.len() <= usize::MAX,
        ensures
            n == spec_dfa_bytes(self.num_states, self.with_transpositions, self.accept@, self.transitions@).len(),
    {
        proof {
            lemma_transition_bytes_len(self.transitions@);
        }
        8 + self.accept.len() + self.transitions.len() * 2
    }
}

/// Reading back a serialized well-formed DFA gives the same DFA.
pub proof fn lemma_dfa_roundtrip(num_states: u16, with_transpositions: bool, accept: Seq<u8>, transitions: Seq<u16>)
    requires
        accept.len() == num_states,
        transitions.len() == 8 * num_states,
    ensures
        spec_dfa_from_bytes(spec_dfa_bytes(num_states, with_transpositions, accept, transitions))
            == Ok::<(u16, bool, Seq<u8>, Seq<u16>), DfaError>((num_states, with_transpositions, accept, transitions)),
{
    let b = spec_dfa_bytes(num_states, with_transpositions, accept, transitions);
    let tb = spec_transition_bytes(transitions);
    lemma_transition_bytes_len(transitions);
    let head = spec_u16_bytes(num_states) + seq![MAX_K, if with_transpositions { 1u8 } else { 0u8 }, 0u8, 0u8, 0u8, 0u8];
    assert(head.len() == 8);
    assert(b[0] == head[0] && b[1] == head[1] && b[2] == head[2] && b[3] == head[3]);
    assert(spec_read_u16_le(b, 0) == num_states);
    assert(b.subrange(8, 8 + num_states) =~= accept);
    let ae = 8 + num_states;
    assert forall|i: int| 0 <= i < transitions.len() implies spec_read_u16_le(b, ae + 2 * i) == #[trigger] transitions[i] by {
        lemma_transition_bytes_at(transitions, i);
        assert(b[ae + 2 * i] == tb[2 * i]);
        assert(b[ae + 2 * i + 1] == tb[2 * i + 1]);
    }
    assert(spec_read_transitions(b, ae, (8 * num_states) as nat) =~= transitions);
}

// ============================================================================
// QUERY MATCHING
// ============================================================================

/// Query-specific DFA matcher
pub struct QueryMatcher<'a> {
    pub dfa: &'a ParametricDFA,
    pub query_chars: Vec<char>,
}

impl<'a> QueryMatcher<'a> {
    pub fn new(dfa: &'a ParametricDFA, query: &str) -> (m: Self)
        ensures
            m.query_chars@ == query@,
            m.dfa == dfa,
    {
        QueryMatcher { dfa, query_chars: chars_of(query) }
    }

    /// The edit distance from the query to `term` when it is at most
    /// `MAX_K`, else none.
    pub fn matches(&self, term: &str) -> (r: Option<u8>)
        requires
            self.query_chars@.len() < usize::MAX,
            term@.len() < usize::MAX,
        ensures
            r is Some <==> edit_distance(self.query_chars@, term@) <= MAX_K,
            r matches Some(d) ==> d == edit_distance(self.query_chars@, term@),
    {
        let distance = simple_levenshtein(self.query_chars.as_slice(), term);
        if distance <= MAX_K as usize {
            Some(distance as u8)
        } else {
            None
        }
    }
}

/// Levenshtein distance with early exits once it is known to exceed
/// `MAX_K`: the exact distance when it is at most `MAX_K`, otherwise some
/// number above `MAX_K` and no larger than the distance.
fn simple_levenshtein(query_chars: &[char], term: &str) -> (r: usize)
    requires
        query_chars@.len() < usize::MAX,
        term@.len() < usize::MAX,
    ensures
        r <= edit_distance(query_chars@, term@),
        edit_distance(query_chars@, term@) <= MAX_K ==> r == edit_distance(query_chars@, term@),
        edit_distance(query_chars@, term@) > MAX_K ==> r > MAX_K,
{
    let term_chars = chars_of(term);
    let m = query_chars.len();
    let n = term_chars.len();
    let ghost sa = query_chars@;
    let ghost sb = term@;
    proof {
        lemma_length_difference_bound(sa, sb);
        assert(sa.take(m as int) =~= sa);
        assert(sb.take(n as int) =~= sb);
    }
    let len_diff = if m >= n { m - n } else { n - m };
    if len_diff > MAX_K as usize {
        return len_diff;
    }

    let mut prev_row: Vec<usize> = Vec::new();
    let mut k: usize = 0;
    while k <= n
        invariant
            n == sb.len(),
            n < usize::MAX,
            k <= n + 1,
            prev_row@.len() == k,
            forall|x: int| 0 <= x < k ==> prev_row@[x] == x,
        decreases n + 1 - k,
    {
        prev_row.push(k);
        k = k + 1;
    }
    let mut curr_row: Vec<usize> = Vec::new();
    let mut k2: usize = 0;
    while k2 <= n
        invariant
            n < usize::MAX,
            k2 <= n + 1,
            curr_row@.len() == k2,
        decreases n + 1 - k2,
    {
        curr_row.push(0);
        k2 = k2 + 1;
    }
    proof {
        assert forall|x: int| 0 <= x <= n implies prev_row@[x] == dist(sa, sb, 0, x) by {
            lemma_dist_edges(sa, sb, 0, x);
        }
    }

    let mut i: usize = 0;
    while i < m
        invariant
            m == sa.len(),
            n == sb.len(),
            m < usize::MAX,
            n < usize::MAX,
            query_chars@ == sa,
            term_chars@ == sb,
            sb == term@,
            i <= m,
            prev_row@.len() == n + 1,
            curr_row@.len() == n + 1,
            forall|x: int| 0 <= x <= n ==> prev_row@[x] == dist(sa, sb, i as int, x),
            dist(sa, sb, m as int, n as int) == edit_distance(sa, sb),
        decreases m - i,
    {
        let qc = query_chars[i];
        proof {
            lemma_dist_edges(sa, sb, i as int + 1, 0);
        }
        curr_row.set(0, i + 1);
        let mut min_in_row = curr_row[0];
        let mut j: usize = 0;
        while j < n
            invariant
                m == sa.len(),
                n == sb.len(),
                m < usize::MAX,
                n < usize::MAX,
                query_chars@ == sa,
                term_chars@ == sb,
                sb == term@,
                i < m,
                qc == sa[i as int],
                j <= n,
                prev_row@.len() == n + 1,
                curr_row@.len() == n + 1,
                forall|x: int| 0 <= x <= n ==> prev_row@[x] == dist(sa, sb, i as int, x),
                forall|x: int| 0 <= x <= j ==> curr_row@[x] == dist(sa, sb, i as int + 1, x),
                forall|x: int| 0 <= x <= j ==> min_in_row <= #[trigger] dist(sa, sb, i as int + 1, x),
                exists|x: int| 0 <= x <= j && min_in_row == #[trigger] dist(sa, sb, i as int + 1, x),
                dist(sa, sb, m as int, n as int) == edit_distance(sa, sb),
            decreases n - j,
        {
            let tc = term_chars[j];
            let cost: usize = if qc == tc { 0 } else { 1 };
            proof {
                lemma_dist_step(sa, sb, i as int + 1, j as int + 1);
                lemma_dist_upper(sa, sb, i as int, j as int + 1);
                lemma_dist_upper(sa, sb, i as int + 1, j as int);
                lemma_dist_upper(sa, sb, i as int, j as int);
            }
            let diag = prev_row[j] + cost;
            let up = prev_row[j + 1] + 1;
            let left = curr_row[j] + 1;
            let mut best = if diag < up { diag } else { up };
            if left < best {
                best = left;
            }
            curr_row.set(j + 1, best);
            if best < min_in_row {
                min_in_row = best;
            }
            j = j + 1;
        }
        if min_in_row > MAX_K as usize {
            proof {
                let r = min_in_row as nat;
                assert forall|x: int| 0 <= x <= sb.len() implies #[trigger] dist(sa, sb, i as int + 1, x) >= r by {
                    assert(min_in_row <= dist(sa, sb, i as int + 1, x));
                }
                lemma_rows_bound(sa, sb, i as int + 1, r);
            }
            return min_in_row;
        }
        let tmp = prev_row;
        prev_row = curr_row;
        curr_row = tmp;
        i = i + 1;
    }
    prev_row[n]
}

// ============================================================================
// CONSTRUCTION
// ============================================================================

/// A position in the NFA: offset from the base position, edits used.
#[derive(Debug, Clone, Copy, PartialEq, Eq, Structural)]
struct NfaPos {
    offset: i8,
    edits: u8,
}

/// A normalized set of positions: strictly increasing offsets, one entry per
/// offset.
spec fn canonical(s: Seq<NfaPos>) -> bool {
    forall|i: int, j: int| 0 <= i < j < s.len() ==> s[i].offset < s[j].offset
}

/// `r` is a normal form drawn from `input`: canonical, made of positions of
/// `input`, and nonempty when `input` is.
spec fn canonical_of(r: Seq<NfaPos>, input: Seq<NfaPos>) -> bool {
    &&& canonical(r)
    &&& forall|i: int| 0 <= i < r.len() ==> drawn_from(#[trigger] r[i], input)
    &&& input.len() > 0 ==> r.len() > 0
}

/// `x` is one of the positions of `input`.
spec fn drawn_from(x: NfaPos, input: Seq<NfaPos>) -> bool {
    exists|k: int| 0 <= k < input.len() && input[k] == x
}

/// Some position of `r` has `p`'s offset and no more edits.
spec fn covered_by(p: NfaPos, r: Seq<NfaPos>) -> bool {
    exists|j: int| 0 <= j < r.len() && r[j].offset == p.offset && r[j].edits <= p.edits
}

/// Every position of `input` is covered by `r`.
spec fn covers(r: Seq<NfaPos>, input: Seq<NfaPos>) -> bool {
    forall|k: int| 0 <= k < input.len() ==> #[trigger] covered_by(input[k], r)
}

/// `r` is the normal form of `input`: one position per offset of `input`,
/// with the fewest edits `input` has there, in increasing offset order.
spec fn is_normal_form(r: Seq<NfaPos>, input: Seq<NfaPos>) -> bool {
    canonical_of(r, input) && covers(r, input)
}

/// Two normal forms of one input are equal.
proof fn lemma_normal_form_unique(a: Seq<NfaPos>, b: Seq<NfaPos>, input: Seq<NfaPos>)
    requires
        is_normal_form(a, input),
        is_normal_form(b, input),
    ensures
        a == b,
{
    lemma_normal_form_within(a, b, input);
    lemma_normal_form_within(b, a, input);
    lemma_canonical_same_elements(a, b);
}

/// Every position of one normal form is a position of another.
proof fn lemma_normal_form_within(a: Seq<NfaPos>, b: Seq<NfaPos>, input: Seq<NfaPos>)
    requires
        is_normal_form(a, input),
        is_normal_form(b, input),
    ensures
        forall|i: int| 0 <= i < a.len() ==> drawn_from(#[trigger] a[i], b),
{
    assert forall|i: int| 0 <= i < a.len() implies drawn_from(#[trigger] a[i], b) by {
        lemma_element_within(a, b, input, i);
    }
}

proof fn lemma_element_within(a: Seq<NfaPos>, b: Seq<NfaPos>, input: Seq<NfaPos>, i: int)
    requires
        is_normal_form(a, input),
        is_normal_form(b, input),
        0 <= i < a.len(),
    ensures
        drawn_from(a[i], b),
{
    let x = a[i];
    assert(drawn_from(x, input));
    let k = choose|k: int| 0 <= k < input.len() && input[k] == x;
    assert(covered_by(input[k], b));
    let j = choose|j: int| 0 <= j < b.len() && b[j].offset == x.offset && b[j].edits <= x.edits;
    let y = b[j];
    assert(drawn_from(y, input));
    let k2 = choose|k2: int| 0 <= k2 < input.len() && input[k2] == y;
    assert(covered_by(input[k2], a));
    let i2 = choose|i2: int| 0 <= i2 < a.len() && a[i2].offset == y.offset && a[i2].edits <= y.edits;
    if i2 < i {
        assert(a[i2].offset < a[i].offset);
    } else if i2 > i {
        assert(a[i].offset < a[i2].offset);
    }
    assert(y.edits == x.edits);
    assert(b[j] == x);
}

/// Canonical sequences with the same positions are equal.
proof fn lemma_canonical_same_elements(a: Seq<NfaPos>, b: Seq<NfaPos>)
    requires
        canonical(a),
        canonical(b),
        forall|i: int| 0 <= i < a.len() ==> drawn_from(#[trigger] a[i], b),
        forall|i: int| 0 <= i < b.len() ==> drawn_from(#[trigger] b[i], a),
    ensures
        a == b,
    decreases a.len() + b.len(),
{
    if a.len() == 0 {
        if b.len() > 0 {
            assert(drawn_from(b[0], a));
        }
        assert(a =~= b);
    } else if b.len() == 0 {
        assert(drawn_from(a[0], b));
    } else {
        assert(drawn_from(a[0], b));
        assert(drawn_from(b[0], a));
        let j = choose|j: int| 0 <= j < b.len() && b[j] == a[0];
        let i = choose|i: int| 0 <= i < a.len() && a[i] == b[0];
        if j > 0 {
            assert(b[0].offset < b[j].offset);
            if i > 0 {
                assert(a[0].offset < a[i].offset);
            }
        }
        if i > 0 {
            assert(a[0].offset < a[i].offset);
        }
        assert(a[0] == b[0]);
        let a1 = a.drop_first();
        let b1 = b.drop_first();
        assert forall|x: int| 0 <= x < a1.len() implies drawn_from(#[trigger] a1[x], b1) by {
            assert(a1[x] == a[x + 1]);
            assert(drawn_from(a[x + 1], b));
            let y = choose|y: int| 0 <= y < b.len() && b[y] == a[x + 1];
            assert(a[0].offset < a[x + 1].offset);
            assert(y != 0);
            assert(b1[y - 1] == b[y]);
        }
        assert forall|x: int| 0 <= x < b1.len() implies drawn_from(#[trigger] b1[x], a1) by {
            assert(b1[x] == b[x + 1]);
            assert(drawn_from(b[x + 1], a));
            let y = choose|y: int| 0 <= y < a.len() && a[y] == b[x + 1];
            assert(b[0].offset < b[x + 1].offset);
            assert(y != 0);
            assert(a1[y - 1] == a[y]);
        }
        lemma_canonical_same_elements(a1, b1);
        assert(a =~= seq![a[0]] + a1);
        assert(b =~= seq![b[0]] + b1);
    }
}

/// Every position lies within its edit count of offset `c`: the shape that
/// all states reachable from the initial one keep.
spec fn banded(s: Seq<NfaPos>, c: int) -> bool {
    forall|i: int| 0 <= i < s.len() ==> (#[trigger] s[i]).edits <= MAX_K && c - s[i].edits <= s[i].offset <= c + s[i].edits
}

/// A normalized reachable state: canonical, offsets from 0 to 4, banded.
spec fn good_state(s: Seq<NfaPos>) -> bool {
    &&& s.len() > 0
    &&& forall|i: int| 0 <= i < s.len() ==> 0 <= (#[trigger] s[i]).offset <= 4
    &&& exists|c: int| -2 <= c <= 2 && banded(s, c)
}

fn insert_pos(out: &mut Vec<NfaPos>, p: NfaPos)
    requires
        canonical(old(out)@),
    ensures
        canonical(final(out)@),
        final(out)@.len() > 0,
        forall|i: int| 0 <= i < final(out)@.len() ==> #[trigger] final(out)@[i] == p
            || drawn_from(final(out)@[i], old(out)@),
        covered_by(p, final(out)@),
        forall|k: int| 0 <= k < old(out)@.len() ==> #[trigger] covered_by(old(out)@[k], final(out)@),
{
    let mut idx: usize = 0;
    while idx < out.len() && out[idx].offset < p.offset
        invariant
            idx <= out@.len(),
            forall|i: int| 0 <= i < idx ==> out@[i].offset < p.offset,
        decreases out@.len() - idx,
    {
        idx = idx + 1;
    }
    let ghost o = out@;
    if idx < out.len() && out[idx].offset == p.offset {
        if p.edits < out[idx].edits {
            out.set(idx, p);
            assert(out@[idx as int] == p);
            assert forall|k: int| 0 <= k < o.len() implies #[trigger] covered_by(o[k], out@) by {
                if k != idx {
                    assert(out@[k] == o[k]);
                } else {
                    assert(out@[idx as int].offset == o[k].offset);
                }
            }
            assert forall|i: int, j: int| 0 <= i < j < out@.len() implies out@[i].offset < out@[j].offset by {
                assert(out@[i].offset == o[i].offset);
                assert(out@[j].offset == o[j].offset);
            }
            assert forall|i: int| 0 <= i < out@.len() implies #[trigger] out@[i] == p
                || drawn_from(out@[i], o) by {
                if i != idx {
                    assert(o[i] == out@[i]);
                }
            }
        } else {
            assert forall|i: int| 0 <= i < out@.len() implies #[trigger] out@[i] == p
                || drawn_from(out@[i], o) by {
                assert(o[i] == out@[i]);
            }
            assert(out@[idx as int].offset == p.offset && out@[idx as int].edits <= p.edits);
            assert forall|k: int| 0 <= k < o.len() implies #[trigger] covered_by(o[k], out@) by {
                assert(out@[k] == o[k]);
            }
        }
    } else {
        out.insert(idx, p);
        assert(out@[idx as int] == p);
        assert forall|i: int, j: int| 0 <= i < j < out@.len() implies out@[i].offset < out@[j].offset by {
            if j < idx {
                assert(out@[i] == o[i] && out@[j] == o[j]);
            } else if j == idx {
                assert(out@[i] == o[i]);
            } else if i == idx {
                assert(out@[j] == o[j - 1]);
                if idx < o.len() {
                    assert(o[idx as int].offset > p.offset);
                    if j - 1 > idx {
                        assert(o[idx as int].offset < o[j - 1].offset);
                    }
                }
            } else if i < idx {
                assert(out@[i] == o[i] && out@[j] == o[j - 1]);
            } else {
                assert(out@[i] == o[i - 1] && out@[j] == o[j - 1]);
            }
        }
        assert forall|i: int| 0 <= i < out@.len() implies #[trigger] out@[i] == p
            || drawn_from(out@[i], o) by {
            if i < idx {
                assert(o[i] == out@[i]);
            } else if i > idx {
                assert(o[i - 1] == out@[i]);
            }
        }
        assert forall|k: int| 0 <= k < o.len() implies #[trigger] covered_by(o[k], out@) by {
            if k < idx {
                assert(out@[k] == o[k]);
            } else {
                assert(out@[k + 1] == o[k]);
            }
        }
    }
}

/// What one insertion does to a normal form: the new list is a normal form
/// drawn from the input with the new position appended.
proof fn lemma_insert_step(before: Seq<NfaPos>, pre: Seq<NfaPos>, out: Seq<NfaPos>, p: NfaPos)
    requires
        canonical_of(before, pre),
        canonical(out),
        out.len() > 0,
        forall|i: int| 0 <= i < out.len() ==> #[trigger] out[i] == p || drawn_from(out[i], before),
    ensures
        canonical_of(out, pre.push(p)),
{
    let post = pre.push(p);
    assert forall|i: int| 0 <= i < out.len() implies drawn_from(#[trigger] out[i], post) by {
        if out[i] == p {
            assert(post[pre.len() as int] == p);
        } else {
            let m0 = choose|m: int| 0 <= m < before.len() && before[m] == out[i];
            assert(drawn_from(before[m0], pre));
            let m1 = choose|m: int| 0 <= m < pre.len() && pre[m] == before[m0];
            assert(post[m1] == pre[m1]);
        }
    }
}

/// Normalize a list of positions: one entry per offset, fewest edits.
fn normal_form(positions: &Vec<NfaPos>) -> (r: Vec<NfaPos>)
    ensures
        is_normal_form(r@, positions@),
{
    let mut out: Vec<NfaPos> = Vec::new();
    let mut k: usize = 0;
    while k < positions.len()
        invariant
            k <= positions@.len(),
            is_normal_form(out@, positions@.take(k as int)),
        decreases positions@.len() - k,
    {
        let ghost before = out@;
        let p = positions[k];
        insert_pos(&mut out, p);
        proof {
            lemma_insert_step(before, positions@.take(k as int), out@, p);
            let pre = positions@.take(k as int);
            let post = positions@.take(k as int + 1);
            assert(post =~= pre.push(p));
            assert forall|m: int| 0 <= m < post.len() implies #[trigger] covered_by(post[m], out@) by {
                if m < pre.len() {
                    assert(post[m] == pre[m]);
                    assert(covered_by(pre[m], before));
                    let j = choose|j: int| 0 <= j < before.len() && before[j].offset == pre[m].offset && before[j].edits <= pre[m].edits;
                    assert(covered_by(before[j], out@));
                } else {
                    assert(post[m] == p);
                }
            }
        }
        k = k + 1;
    }
    assert(positions@.take(positions@.len() as int) =~= positions@);
    out
}

/// The character class has bit `b` set: the input character equals the
/// query character `b` places after the base.
spec fn class_has(char_class: usize, b: int) -> bool {
    0 <= b < 8 && ((char_class >> (b as usize)) & 1) == 1
}

/// The moves of the automaton from one position on a character of the
/// class: a match (the class has the position's bit), a substitution and
/// an insertion (each one more edit), and with transpositions a swap with
/// the next query character (one more edit).
spec fn moves_of(pos: NfaPos, char_class: usize, with_transpositions: bool) -> Seq<NfaPos> {
    if pos.edits > MAX_K {
        Seq::empty()
    } else {
        let matched = if class_has(char_class, pos.offset as int) && pos.offset >= 0 {
            seq![NfaPos { offset: (pos.offset + 1) as i8, edits: pos.edits }]
        } else {
            Seq::empty()
        };
        let substituted = if pos.edits < MAX_K {
            seq![NfaPos { offset: (pos.offset + 1) as i8, edits: (pos.edits + 1) as u8 }]
        } else {
            Seq::empty()
        };
        let inserted = if pos.edits < MAX_K {
            seq![NfaPos { offset: pos.offset, edits: (pos.edits + 1) as u8 }]
        } else {
            Seq::empty()
        };
        let next_bit = if pos.offset + 1 < MAX_K { pos.offset + 1 } else { MAX_K as int };
        let swapped = if with_transpositions && pos.edits < MAX_K && pos.offset >= 0 && class_has(
            char_class,
            next_bit,
        ) {
            seq![NfaPos { offset: pos.offset, edits: (pos.edits + 1) as u8 }]
        } else {
            Seq::empty()
        };
        matched + substituted + inserted + swapped
    }
}

/// The moves from every position of a state, in order.
spec fn direct_moves(state: Seq<NfaPos>, char_class: usize, with_transpositions: bool) -> Seq<NfaPos>
    decreases state.len(),
{
    if state.len() == 0 {
        Seq::empty()
    } else {
        direct_moves(state.drop_last(), char_class, with_transpositions) + moves_of(
            state.last(),
            char_class,
            with_transpositions,
        )
    }
}

/// The deletions after a position: skipping one query character (one more
/// edit) or two (two more), while edits remain.
spec fn deletions_of(pos: NfaPos) -> Seq<NfaPos> {
    if pos.edits < MAX_K {
        seq![NfaPos { offset: (pos.offset + 1) as i8, edits: (pos.edits + 1) as u8 }] + if pos.edits + 1 < MAX_K {
            seq![NfaPos { offset: (pos.offset + 2) as i8, edits: (pos.edits + 2) as u8 }]
        } else {
            Seq::<NfaPos>::empty()
        }
    } else {
        Seq::empty()
    }
}

/// The deletions after every position of a list, in order.
spec fn all_deletions(list: Seq<NfaPos>) -> Seq<NfaPos>
    decreases list.len(),
{
    if list.len() == 0 {
        Seq::empty()
    } else {
        all_deletions(list.drop_last()) + deletions_of(list.last())
    }
}

/// The positions after reading one character of the class: the moves,
/// then the deletions after them.
spec fn nfa_step(state: Seq<NfaPos>, char_class: usize, with_transpositions: bool) -> Seq<NfaPos> {
    let d = direct_moves(state, char_class, with_transpositions);
    d + all_deletions(d)
}

/// Whether bit `b` of the character class is set.
fn class_bit(char_class: usize, b: i8) -> (r: bool)
    requires
        char_class < NUM_CHAR_CLASSES,
    ensures
        r == class_has(char_class, b as int),
{
    if 0 <= b && b < 8 {
        (char_class >> (b as usize)) & 1 == 1
    } else {
        false
    }
}

/// The positions after reading one character of class `char_class` from
/// the normalized state `state` (before normalizing).
#[verifier::spinoff_prover]
#[verifier::rlimit(40)]
fn next_positions(state: &Vec<NfaPos>, char_class: usize, with_transpositions: bool, Ghost(c): Ghost<int>) -> (r: Vec<NfaPos>)
    requires
        char_class < NUM_CHAR_CLASSES,
        forall|i: int| 0 <= i < state@.len() ==> 0 <= (#[trigger] state@[i]).offset <= 4,
        banded(state@, c),
        -2 <= c <= 2,
    ensures
        banded(r@, c + 1),
        forall|i: int| 0 <= i < r@.len() ==> 0 <= (#[trigger] r@[i]).offset <= 7,
        r@ == nfa_step(state@, char_class, with_transpositions),
{
    let mut next: Vec<NfaPos> = Vec::new();
    let mut k: usize = 0;
    assert(state@.take(0) =~= Seq::<NfaPos>::empty());
    while k < state.len()
        invariant
            k <= state@.len(),
            char_class < NUM_CHAR_CLASSES,
            forall|i: int| 0 <= i < state@.len() ==> 0 <= (#[trigger] state@[i]).offset <= 4,
            banded(state@, c),
            banded(next@, c + 1),
            forall|i: int| 0 <= i < next@.len() ==> 0 <= (#[trigger] next@[i]).offset <= 5,
            next@ == direct_moves(state@.take(k as int), char_class, with_transpositions),
        decreases state@.len() - k,
    {
        let pos = state[k];
        assert(pos == state@[k as int]);
        let ghost before = next@;
        proof {
            assert(state@.take(k + 1).drop_last() =~= state@.take(k as int));
            assert(state@.take(k + 1).last() == pos);
        }
        if pos.edits <= MAX_K {
            if class_bit(char_class, pos.offset) && pos.offset >= 0 {
                next.push(NfaPos { offset: pos.offset + 1, edits: pos.edits });
            }
            if pos.edits < MAX_K {
                next.push(NfaPos { offset: pos.offset + 1, edits: pos.edits + 1 });
            }
            if pos.edits < MAX_K {
                next.push(NfaPos { offset: pos.offset, edits: pos.edits + 1 });
            }
            if with_transpositions && pos.edits < MAX_K && pos.offset >= 0 {
                let next_bit: i8 = if pos.offset + 1 < MAX_K as i8 { pos.offset + 1 } else { MAX_K as i8 };
                if class_bit(char_class, next_bit) {
                    next.push(NfaPos { offset: pos.offset, edits: pos.edits + 1 });
                }
            }
        }
        assert(next@ =~= before + moves_of(pos, char_class, with_transpositions));
        k = k + 1;
    }
    assert(state@.take(k as int) =~= state@);
    let mut with_deletions: Vec<NfaPos> = next.clone();
    assert(with_deletions@ =~= next@);
    let mut m: usize = 0;
    assert(next@.take(0) =~= Seq::<NfaPos>::empty());
    assert(with_deletions@ =~= next@ + all_deletions(next@.take(0)));
    while m < next.len()
        invariant
            m <= next@.len(),
            banded(next@, c + 1),
            forall|i: int| 0 <= i < next@.len() ==> 0 <= (#[trigger] next@[i]).offset <= 5,
            banded(with_deletions@, c + 1),
            forall|i: int| 0 <= i < with_deletions@.len() ==> 0 <= (#[trigger] with_deletions@[i]).offset <= 7,
            with_deletions@ == next@ + all_deletions(next@.take(m as int)),
        decreases next@.len() - m,
    {
        let pos = next[m];
        assert(pos == next@[m as int]);
        let ghost before = with_deletions@;
        proof {
            assert(next@.take(m + 1).drop_last() =~= next@.take(m as int));
            assert(next@.take(m + 1).last() == pos);
        }
        if pos.edits < MAX_K {
            with_deletions.push(NfaPos { offset: pos.offset + 1, edits: pos.edits + 1 });
            if pos.edits + 1 < MAX_K {
                with_deletions.push(NfaPos { offset: pos.offset + 2, edits: pos.edits + 2 });
            }
        }
        assert(with_deletions@ =~= before + deletions_of(pos));
        m = m + 1;
    }
    assert(next@.take(m as int) =~= next@);
    with_deletions
}

proof fn lemma_banded_sub(r: Seq<NfaPos>, input: Seq<NfaPos>, c: int)
    requires
        canonical_of(r, input),
        banded(input, c),
    ensures
        banded(r, c),
{
    assert forall|i: int| 0 <= i < r.len() implies (#[trigger] r[i]).edits <= MAX_K && c - r[i].edits <= r[i].offset <= c + r[i].edits by {
        assert(drawn_from(r[i], input));
        let k = choose|k: int| 0 <= k < input.len() && input[k] == r[i];
        assert(input[k] == r[i]);
    }
}

/// `m` is the smallest offset of the positions.
spec fn is_min_offset(s: Seq<NfaPos>, m: int) -> bool {
    &&& forall|i: int| 0 <= i < s.len() ==> m <= (#[trigger] s[i]).offset
    &&& exists|i: int| 0 <= i < s.len() && (#[trigger] s[i]).offset == m
}

/// The positions moved down by `m` offsets.
spec fn shift_by(s: Seq<NfaPos>, m: int) -> Seq<NfaPos> {
    Seq::new(s.len(), |i: int| NfaPos { offset: (s[i].offset - m) as i8, edits: s[i].edits })
}

/// The normalized state of a nonempty list of positions: moved down so
/// that the smallest offset is 0, then normalized.
spec fn is_base_form(r: Seq<NfaPos>, positions: Seq<NfaPos>) -> bool {
    exists|m: int| is_min_offset(positions, m) && is_normal_form(r, shift_by(positions, m))
}

/// Shift the nonempty state so that its smallest offset is 0, then normalize.
fn shift_to_base(positions: &Vec<NfaPos>, Ghost(c): Ghost<int>) -> (r: Vec<NfaPos>)
    requires
        positions@.len() > 0,
        banded(positions@, c),
        forall|i: int| 0 <= i < positions@.len() ==> 0 <= (#[trigger] positions@[i]).offset <= 7,
    ensures
        good_state(r@),
        is_base_form(r@, positions@),
{
    let mut min_offset: i8 = positions[0].offset;
    let mut k: usize = 1;
    while k < positions.len()
        invariant
            1 <= k <= positions@.len(),
            forall|i: int| 0 <= i < positions@.len() ==> 0 <= (#[trigger] positions@[i]).offset <= 7,
            forall|i: int| 0 <= i < k ==> min_offset <= (#[trigger] positions@[i]).offset,
            exists|i: int| 0 <= i < k && min_offset == (#[trigger] positions@[i]).offset,
        decreases positions@.len() - k,
    {
        if positions[k].offset < min_offset {
            min_offset = positions[k].offset;
        }
        k = k + 1;
    }
    let mut shifted: Vec<NfaPos> = Vec::new();
    let mut j: usize = 0;
    while j < positions.len()
        invariant
            j <= positions@.len(),
            0 <= min_offset <= 7,
            forall|i: int| 0 <= i < positions@.len() ==> min_offset <= (#[trigger] positions@[i]).offset <= 7,
            shifted@.len() == j,
            forall|i: int| 0 <= i < j ==> (#[trigger] shifted@[i]).offset == positions@[i].offset - min_offset
                && shifted@[i].edits == positions@[i].edits,
        decreases positions@.len() - j,
    {
        let p = positions[j];
        shifted.push(NfaPos { offset: p.offset - min_offset, edits: p.edits });
        j = j + 1;
    }
    let r = normal_form(&shifted);
    proof {
        lemma_shift_good(positions@, shifted@, r@, min_offset as int, c);
        assert(shifted@ =~= shift_by(positions@, min_offset as int));
        assert(is_min_offset(positions@, min_offset as int));
    }
    r
}

proof fn lemma_shift_good(positions: Seq<NfaPos>, shifted: Seq<NfaPos>, r: Seq<NfaPos>, m: int, c: int)
    requires
        banded(positions, c),
        0 <= m,
        shifted.len() == positions.len(),
        forall|i: int| 0 <= i < positions.len() ==> m <= (#[trigger] positions[i]).offset,
        exists|i: int| 0 <= i < positions.len() && m == (#[trigger] positions[i]).offset,
        forall|i: int| 0 <= i < shifted.len() ==> (#[trigger] shifted[i]).offset == positions[i].offset - m
            && shifted[i].edits == positions[i].edits,
        canonical_of(r, shifted),
    ensures
        good_state(r),
{
    let c2 = c - m;
    assert forall|i: int| 0 <= i < shifted.len() implies (#[trigger] shifted[i]).edits <= MAX_K
        && c2 - shifted[i].edits <= shifted[i].offset <= c2 + shifted[i].edits by {
        assert(positions[i].edits <= MAX_K);
    }
    assert(banded(shifted, c2));
    lemma_banded_sub(r, shifted, c2);
    let m0 = choose|i: int| 0 <= i < positions.len() && m == (#[trigger] positions[i]).offset;
    assert(shifted[m0].offset == 0);
    assert(shifted[m0].edits <= MAX_K);
    assert(-2 <= c2 <= 2);
    assert forall|i: int| 0 <= i < r.len() implies 0 <= (#[trigger] r[i]).offset <= 4 by {
        assert(drawn_from(r[i], shifted));
        let k0 = choose|k: int| 0 <= k < shifted.len() && shifted[k] == r[i];
        assert(shifted[k0] == r[i]);
        assert(shifted[k0].offset >= 0);
    }
    let i0 = choose|i: int| #![trigger r[i]] 0 <= i < r.len() && r[i].offset == shifted[m0].offset && r[i].edits <= shifted[m0].edits;
    assert(r.len() > 0);
}

/// The fewest edits among the positions with a nonnegative offset, or
/// `NOT_ACCEPTING` when there are none.
spec fn best_edits(s: Seq<NfaPos>) -> u8
    decreases s.len(),
{
    if s.len() == 0 {
        NOT_ACCEPTING
    } else {
        let b = best_edits(s.drop_last());
        let p = s.last();
        if p.offset >= 0 && p.edits < b {
            p.edits
        } else {
            b
        }
    }
}

/// A state's accept distance: its fewest edits at a nonnegative offset,
/// when within `MAX_K`; otherwise not accepting.
spec fn accept_of(s: Seq<NfaPos>) -> u8 {
    if best_edits(s) <= MAX_K {
        best_edits(s)
    } else {
        NOT_ACCEPTING
    }
}

/// Smallest edit count in a nonempty state, if within `MAX_K`.
fn accept_distance(state: &Vec<NfaPos>) -> (r: u8)
    ensures
        r <= MAX_K || r == NOT_ACCEPTING,
        r == accept_of(state@),
{
    let mut best: u8 = NOT_ACCEPTING;
    let mut k: usize = 0;
    assert(state@.take(0) =~= Seq::<NfaPos>::empty());
    while k < state.len()
        invariant
            k <= state@.len(),
            best == best_edits(state@.take(k as int)),
        decreases state@.len() - k,
    {
        assert(state@.take(k + 1).drop_last() =~= state@.take(k as int));
        assert(state@.take(k + 1).last() == state@[k as int]);
        if state[k].offset >= 0 && state[k].edits < best {
            best = state[k].edits;
        }
        k = k + 1;
    }
    assert(state@.take(k as int) =~= state@);
    if best <= MAX_K { best } else { NOT_ACCEPTING }
}

fn find_state(states: &Vec<Vec<NfaPos>>, s: &Vec<NfaPos>) -> (r: Option<usize>)
    ensures
        r matches Some(i) ==> i < states@.len() && states@[i as int]@ == s@,
        r is None ==> forall|i: int| 0 <= i < states@.len() ==> states@[i]@ != s@,
{
    let mut i: usize = 0;
    while i < states.len()
        invariant
            i <= states@.len(),
            forall|k: int| 0 <= k < i ==> states@[k]@ != s@,
        decreases states@.len() - i,
    {
        let cand = &states[i];
        if cand.len() == s.len() {
            let mut j: usize = 0;
            let mut same = true;
            while j < s.len()
                invariant
                    j <= s@.len(),
                    cand@.len() == s@.len(),
                    same == (forall|x: int| 0 <= x < j ==> cand@[x] == s@[x]),
                decreases s@.len() - j,
            {
                if cand[j] != s[j] {
                    same = false;
                }
                j = j + 1;
            }
            if same {
                assert(cand@ =~= s@);
                return Some(i);
            }
            assert(cand@ != s@) by {
                let x = choose|x: int| 0 <= x < s@.len() && cand@[x] != s@[x];
            }
        }
        i = i + 1;
    }
    None
}

/// Largest number of states: state ids are u16 and 0xFFFF is the dead state.
pub const MAX_STATES: usize = 65535;

/// The start positions: query offsets 0, 1 and 2, reached with 0, 1 and 2
/// edits.
spec fn start_positions() -> Seq<NfaPos> {
    seq![NfaPos { offset: 0, edits: 0 }, NfaPos { offset: 1, edits: 1 }, NfaPos { offset: 2, edits: 2 }]
}

/// The table entry for state `s` and character class `cc`.
spec fn table_entry(t: Seq<u16>, s: int, cc: int) -> u16 {
    t[NUM_CHAR_CLASSES * s + cc]
}

/// The states as position lists.
spec fn state_views(states: Seq<Vec<NfaPos>>) -> Seq<Seq<NfaPos>> {
    states.map_values(|v: Vec<NfaPos>| v@)
}

/// A transition entry follows the automaton's step `next`: a step that
/// leaves no position leads to the dead state; otherwise the entry names
/// the state that is the step's normalized form, or is the dead state when
/// no state is (the state list being full).
spec fn transition_follows(states: Seq<Seq<NfaPos>>, t: u16, next: Seq<NfaPos>) -> bool {
    if next.len() == 0 {
        t == DEAD_STATE
    } else if t != DEAD_STATE {
        t < states.len() && is_base_form(states[t as int], next)
    } else {
        states.len() == MAX_STATES && forall|j: int| 0 <= j < states.len() ==> !is_base_form(#[trigger] states[j], next)
    }
}

/// The tables of `d` are the exploration of the automaton over these
/// distinct states, the first being the normalized start state.
spec fn explores(d: ParametricDFA, states: Seq<Seq<NfaPos>>) -> bool {
    &&& states.len() == d.num_states
    &&& states.len() >= 1
    &&& is_base_form(states[0], start_positions())
    &&& forall|i: int, j: int| 0 <= i < j < states.len() ==> #[trigger] states[i] != #[trigger] states[j]
    &&& forall|s: int| 0 <= s < states.len() ==> d.accept@[s] == accept_of(#[trigger] states[s])
    &&& forall|s: int, cc: int|
        0 <= s < states.len() && 0 <= cc < NUM_CHAR_CLASSES ==> transition_follows(
            states,
            #[trigger] table_entry(d.transitions@, s, cc),
            nfa_step(states[s], cc as usize, d.with_transpositions),
        )
}

impl ParametricDFA {
    /// The tables are those of the parametric Levenshtein automaton for
    /// k = 2: there is a list of distinct normalized states, the first the
    /// start state (offsets 0, 1, 2 with 0, 1, 2 edits), such that each
    /// state's accept entry is the fewest edits of its positions at a
    /// nonnegative offset (when at most 2), and each transition on a
    /// character class leads to the state that normalizes the automaton's
    /// step (match, substitution, insertion, transposition, then
    /// deletions), or to the dead state when the step leaves no position.
    pub closed spec fn follows_automaton(self) -> bool {
        exists|states: Seq<Seq<NfaPos>>| explores(self, states)
    }
}

proof fn lemma_follows_push(states: Seq<Seq<NfaPos>>, x: Seq<NfaPos>, t: u16, next: Seq<NfaPos>)
    requires
        transition_follows(states, t, next),
        states.len() < MAX_STATES,
    ensures
        transition_follows(states.push(x), t, next),
{
    if next.len() > 0 && t != DEAD_STATE {
        assert(states.push(x)[t as int] == states[t as int]);
    }
}

/// Value `v` occurs among the first `p` entries of `t`.
pub open spec fn appears_before(t: Seq<u16>, v: int, p: int) -> bool {
    exists|q: int| 0 <= q < p && q < t.len() && t[q] == v
}

/// States are numbered in the order the exploration discovers them: read
/// row by row, each state other than the first appears in the table before
/// its own row, and after the state numbered one below it.
pub open spec fn numbered_in_discovery_order(t: Seq<u16>, num_states: int) -> bool {
    &&& forall|p: int|
        0 <= p < t.len() && #[trigger] t[p] != DEAD_STATE && t[p] >= 2 ==> appears_before(t, t[p] - 1, p)
    &&& forall|j: int| 1 <= j < num_states ==> #[trigger] appears_before(t, j, NUM_CHAR_CLASSES * j)
}

/// Two base forms of one list of positions are equal.
proof fn lemma_base_form_unique(x: Seq<NfaPos>, y: Seq<NfaPos>, positions: Seq<NfaPos>)
    requires
        is_base_form(x, positions),
        is_base_form(y, positions),
    ensures
        x == y,
{
    let m1 = choose|m: int| is_min_offset(positions, m) && is_normal_form(x, shift_by(positions, m));
    let m2 = choose|m: int| is_min_offset(positions, m) && is_normal_form(y, shift_by(positions, m));
    let i1 = choose|i: int| 0 <= i < positions.len() && (#[trigger] positions[i]).offset == m1;
    let i2 = choose|i: int| 0 <= i < positions.len() && (#[trigger] positions[i]).offset == m2;
    assert(m1 <= positions[i2].offset);
    assert(m2 <= positions[i1].offset);
    lemma_normal_form_unique(x, y, shift_by(positions, m1));
}

/// When state `x` stands at `p`, every state from 1 to `x - 1` stands
/// before it.
proof fn lemma_ids_below_appear(t: Seq<u16>, n: int, p: int, x: int)
    requires
        numbered_in_discovery_order(t, n),
        0 <= p < t.len(),
        t[p] == x,
        x != DEAD_STATE,
        1 <= x,
    ensures
        forall|j: int| 1 <= j < x ==> #[trigger] appears_before(t, j, p),
    decreases x,
{
    if x >= 2 {
        assert(t[p] != DEAD_STATE && t[p] >= 2);
        assert(appears_before(t, x - 1, p));
        let q = choose|q: int| 0 <= q < p && q < t.len() && t[q] == x - 1;
        lemma_ids_below_appear(t, n, q, x - 1);
        assert forall|j: int| 1 <= j < x implies #[trigger] appears_before(t, j, p) by {
            if j < x - 1 {
                assert(appears_before(t, j, q));
                let r = choose|r: int| 0 <= r < q && r < t.len() && t[r] == j;
                assert(r < p);
            }
        }
    }
}

proof fn lemma_appears_transfer(ta: Seq<u16>, tb: Seq<u16>, j: int, q: int)
    requires
        0 <= q <= ta.len(),
        q <= tb.len(),
        forall|r: int| 0 <= r < q ==> ta[r] == tb[r],
    ensures
        appears_before(ta, j, q) == appears_before(tb, j, q),
{
    if appears_before(ta, j, q) {
        let r = choose|r: int| 0 <= r < q && r < ta.len() && ta[r] == j;
        assert(tb[r] == j);
    }
    if appears_before(tb, j, q) {
        let r = choose|r: int| 0 <= r < q && r < tb.len() && tb[r] == j;
        assert(ta[r] == j);
    }
}

/// The same step from the same state, taken in two explorations whose
/// first `q` entries and named states agree, leads to the same entry.
#[verifier::spinoff_prover]
proof fn lemma_same_target(
    sa: Seq<Seq<NfaPos>>,
    sb: Seq<Seq<NfaPos>>,
    ta: Seq<u16>,
    tb: Seq<u16>,
    na: int,
    nb: int,
    q: int,
    next: Seq<NfaPos>,
)
    requires
        sa.len() == na < MAX_STATES,
        sb.len() == nb < MAX_STATES,
        forall|i: int, j: int| 0 <= i < j < sa.len() ==> #[trigger] sa[i] != #[trigger] sa[j],
        forall|i: int, j: int| 0 <= i < j < sb.len() ==> #[trigger] sb[i] != #[trigger] sb[j],
        numbered_in_discovery_order(ta, na),
        numbered_in_discovery_order(tb, nb),
        0 <= q < ta.len(),
        q < tb.len(),
        forall|r: int| 0 <= r < q ==> ta[r] == tb[r],
        sa[0] == sb[0],
        forall|j: int| j != DEAD_STATE && #[trigger] appears_before(ta, j, q) ==> j < sa.len() && j < sb.len() && sa[j] == sb[j],
        transition_follows(sa, ta[q], next),
        transition_follows(sb, tb[q], next),
    ensures
        ta[q] == tb[q],
{
    let x = ta[q];
    let y = tb[q];
    if next.len() > 0 {
        assert(x != DEAD_STATE && y != DEAD_STATE);
        lemma_base_form_unique(sa[x as int], sb[y as int], next);
        lemma_appears_transfer(ta, tb, y as int, q);
        lemma_appears_transfer(ta, tb, x as int, q);
        if x == 0 || appears_before(ta, x as int, q) {
            assert(sa[x as int] == sb[x as int]);
            if x != y {
                if x < y {
                    assert(sb[x as int] != sb[y as int]);
                } else {
                    assert(sb[y as int] != sb[x as int]);
                }
            }
        } else if y == 0 || appears_before(tb, y as int, q) {
            assert(sa[y as int] == sb[y as int]);
            if x != y {
                if x < y {
                    assert(sa[x as int] != sa[y as int]);
                } else {
                    assert(sa[y as int] != sa[x as int]);
                }
            }
        } else {
            lemma_ids_below_appear(ta, na, q, x as int);
            lemma_ids_below_appear(tb, nb, q, y as int);
            if x < y {
                assert(appears_before(tb, x as int, q));
            } else if y < x {
                assert(appears_before(ta, y as int, q));
            }
        }
    }
}

/// The first `p` table entries of two explorations agree, and so do the
/// states named so far.
#[verifier::spinoff_prover]
#[verifier::rlimit(40)]
proof fn lemma_prefix_agree(a: ParametricDFA, b: ParametricDFA, sa: Seq<Seq<NfaPos>>, sb: Seq<Seq<NfaPos>>, p: int)
    requires
        a.wf(),
        b.wf(),
        explores(a, sa),
        explores(b, sb),
        a.with_transpositions == b.with_transpositions,
        numbered_in_discovery_order(a.transitions@, a.num_states as int),
        numbered_in_discovery_order(b.transitions@, b.num_states as int),
        a.num_states < MAX_STATES,
        b.num_states < MAX_STATES,
        0 <= p <= a.transitions@.len(),
        p <= b.transitions@.len(),
    ensures
        sa[0] == sb[0],
        forall|r: int| 0 <= r < p ==> a.transitions@[r] == b.transitions@[r],
        forall|j: int|
            j != DEAD_STATE && #[trigger] appears_before(a.transitions@, j, p) ==> j < sa.len() && j < sb.len() && sa[j] == sb[j],
    decreases p,
{
    let ta = a.transitions@;
    let tb = b.transitions@;
    if p == 0 {
        lemma_base_form_unique(sa[0], sb[0], start_positions());
    } else {
        lemma_prefix_agree(a, b, sa, sb, p - 1);
        let q = p - 1;
        let s = q / 8;
        let cc = q % 8;
        assert(q == NUM_CHAR_CLASSES * s + cc);
        assert(0 <= s < sa.len() && s < sb.len());
        if s > 0 {
            assert(appears_before(ta, s, NUM_CHAR_CLASSES * s));
            let r = choose|r: int| 0 <= r < NUM_CHAR_CLASSES * s && r < ta.len() && ta[r] == s;
            assert(appears_before(ta, s, q));
        }
        assert(sa[s] == sb[s]);
        let next = nfa_step(sa[s], cc as usize, a.with_transpositions);
        assert(transition_follows(sa, table_entry(ta, s, cc), next));
        assert(transition_follows(sb, table_entry(tb, s, cc), nfa_step(sb[s], cc as usize, b.with_transpositions)));
        assert(table_entry(ta, s, cc) == ta[q]);
        assert(table_entry(tb, s, cc) == tb[q]);
        lemma_same_target(sa, sb, ta, tb, a.num_states as int, b.num_states as int, q, next);
        assert forall|j: int| j != DEAD_STATE && #[trigger] appears_before(ta, j, p) implies j < sa.len() && j < sb.len()
            && sa[j] == sb[j] by {
            if !appears_before(ta, j, q) {
                let r = choose|r: int| 0 <= r < p && r < ta.len() && ta[r] == j;
                assert(r == q);
                assert(transition_follows(sa, ta[q], next));
                if j != 0 {
                    assert(is_base_form(sa[j], next));
                    assert(is_base_form(sb[j], next));
                    lemma_base_form_unique(sa[j], sb[j], next);
                }
            }
        }
    }
}

/// Construction is deterministic: two tables that follow the automaton,
/// with the same transposition setting and their states numbered in the
/// order of discovery, are the same table, wherever fewer than
/// `MAX_STATES` states were needed. `build` meets every premise (it needs at
/// most `MAX_DFA_STATES` states), so two builds with one setting agree.
pub proof fn lemma_automaton_tables_determined(a: ParametricDFA, b: ParametricDFA)
    requires
        a.wf(),
        b.wf(),
        a.follows_automaton(),
        b.follows_automaton(),
        a.with_transpositions == b.with_transpositions,
        numbered_in_discovery_order(a.transitions@, a.num_states as int),
        numbered_in_discovery_order(b.transitions@, b.num_states as int),
        a.num_states < MAX_STATES,
        b.num_states < MAX_STATES,
    ensures
        a.num_states == b.num_states,
        a.transitions@ == b.transitions@,
        a.accept@ == b.accept@,
{
    let sa = choose|st: Seq<Seq<NfaPos>>| explores(a, st);
    let sb = choose|st: Seq<Seq<NfaPos>>| explores(b, st);
    let ta = a.transitions@;
    let tb = b.transitions@;
    let l = if ta.len() <= tb.len() { ta.len() as int } else { tb.len() as int };
    lemma_prefix_agree(a, b, sa, sb, l);
    if a.num_states < b.num_states {
        let j = a.num_states as int;
        assert(appears_before(tb, j, NUM_CHAR_CLASSES * j));
        let r = choose|r: int| 0 <= r < NUM_CHAR_CLASSES * j && r < tb.len() && tb[r] == j;
        assert(ta[r] == j);
        let s = r / 8;
        let cc = r % 8;
        assert(r == NUM_CHAR_CLASSES * s + cc);
        assert(table_entry(ta, s, cc) == ta[r]);
        assert(transition_follows(sa, table_entry(ta, s, cc), nfa_step(sa[s], cc as usize, a.with_transpositions)));
    } else if b.num_states < a.num_states {
        let j = b.num_states as int;
        assert(appears_before(ta, j, NUM_CHAR_CLASSES * j));
        let r = choose|r: int| 0 <= r < NUM_CHAR_CLASSES * j && r < ta.len() && ta[r] == j;
        assert(tb[r] == j);
        let s = r / 8;
        let cc = r % 8;
        assert(r == NUM_CHAR_CLASSES * s + cc);
        assert(table_entry(tb, s, cc) == tb[r]);
        assert(transition_follows(sb, table_entry(tb, s, cc), nfa_step(sb[s], cc as usize, b.with_transpositions)));
    }
    assert(ta =~= tb);
    assert forall|s: int| 0 <= s < a.accept@.len() implies a.accept@[s] == b.accept@[s] by {
        assert(s < MAX_STATES);
        if s > 0 {
            assert(appears_before(ta, s, NUM_CHAR_CLASSES * s));
            let r = choose|r: int| 0 <= r < NUM_CHAR_CLASSES * s && r < ta.len() && ta[r] == s;
            assert(appears_before(ta, s, l));
        }
        assert(sa[s] == sb[s]);
        assert(a.accept@[s] == accept_of(sa[s]));
        assert(b.accept@[s] == accept_of(sb[s]));
    }
    assert(a.accept@ =~= b.accept@);
}

/// The digit of a state at an offset: 0 when no position has that offset,
/// else one more than the position's edits.
spec fn edits_digit(s: Seq<NfaPos>, o: int) -> int
    decreases s.len(),
{
    if s.len() == 0 {
        0
    } else if s.last().offset == o {
        s.last().edits + 1
    } else {
        edits_digit(s.drop_last(), o)
    }
}

/// A state read as a number in base 4, one digit per offset from 0 to 4.
spec fn state_code(s: Seq<NfaPos>) -> int {
    edits_digit(s, 0) + 4 * edits_digit(s, 1) + 16 * edits_digit(s, 2) + 64 * edits_digit(s, 3) + 256
        * edits_digit(s, 4)
}

/// The positions of a state have at most `MAX_K` edits.
spec fn edits_bounded(s: Seq<NfaPos>) -> bool {
    forall|i: int| 0 <= i < s.len() ==> (#[trigger] s[i]).edits <= MAX_K
}

#[verifier::spinoff_prover]
proof fn lemma_edits_digit(s: Seq<NfaPos>, o: int)
    requires
        canonical(s),
        edits_bounded(s),
    ensures
        0 <= edits_digit(s, o) <= 3,
        forall|i: int| 0 <= i < s.len() && (#[trigger] s[i]).offset == o ==> edits_digit(s, o) == s[i].edits + 1,
        edits_digit(s, o) != 0 ==> exists|i: int| 0 <= i < s.len() && (#[trigger] s[i]).offset == o,
    decreases s.len(),
{
    if s.len() > 0 {
        let t = s.drop_last();
        assert forall|i: int, j: int| 0 <= i < j < t.len() implies t[i].offset < t[j].offset by {
            assert(t[i] == s[i] && t[j] == s[j]);
        }
        assert forall|i: int| 0 <= i < t.len() implies (#[trigger] t[i]).edits <= MAX_K by {
            assert(t[i] == s[i]);
        }
        lemma_edits_digit(t, o);
        let n = s.len() - 1;
        assert(s.last() == s[n]);
        if s.last().offset == o {
            assert forall|i: int| 0 <= i < s.len() && (#[trigger] s[i]).offset == o implies edits_digit(s, o) == s[i].edits + 1 by {
                if i < n {
                    assert(s[i].offset < s[n].offset);
                }
            }
        } else {
            assert forall|i: int| 0 <= i < s.len() && (#[trigger] s[i]).offset == o implies edits_digit(s, o) == s[i].edits + 1 by {
                assert(i < n);
                assert(t[i] == s[i]);
            }
            if edits_digit(s, o) != 0 {
                let i = choose|i: int| 0 <= i < t.len() && (#[trigger] t[i]).offset == o;
                assert(s[i] == t[i]);
            }
        }
    }
}

/// Base-4 numerals with equal values have equal digits.
proof fn lemma_base4_digits_unique(
    a0: int, a1: int, a2: int, a3: int, a4: int,
    b0: int, b1: int, b2: int, b3: int, b4: int,
)
    requires
        0 <= a0 <= 3, 0 <= a1 <= 3, 0 <= a2 <= 3, 0 <= a3 <= 3, 0 <= a4 <= 3,
        0 <= b0 <= 3, 0 <= b1 <= 3, 0 <= b2 <= 3, 0 <= b3 <= 3, 0 <= b4 <= 3,
        a0 + 4 * a1 + 16 * a2 + 64 * a3 + 256 * a4 == b0 + 4 * b1 + 16 * b2 + 64 * b3 + 256 * b4,
    ensures
        a0 == b0 && a1 == b1 && a2 == b2 && a3 == b3 && a4 == b4,
{
    assert(a4 == b4);
    assert(a3 == b3);
    assert(a2 == b2);
    assert(a1 == b1);
}

/// Canonical states over the offsets 0 to 4 with the same code are equal.
#[verifier::spinoff_prover]
proof fn lemma_state_code_injective(a: Seq<NfaPos>, b: Seq<NfaPos>)
    requires
        canonical(a),
        canonical(b),
        edits_bounded(a),
        edits_bounded(b),
        forall|i: int| 0 <= i < a.len() ==> 0 <= (#[trigger] a[i]).offset <= 4,
        forall|i: int| 0 <= i < b.len() ==> 0 <= (#[trigger] b[i]).offset <= 4,
        state_code(a) == state_code(b),
    ensures
        a == b,
{
    lemma_edits_digit(a, 0);
    lemma_edits_digit(a, 1);
    lemma_edits_digit(a, 2);
    lemma_edits_digit(a, 3);
    lemma_edits_digit(a, 4);
    lemma_edits_digit(b, 0);
    lemma_edits_digit(b, 1);
    lemma_edits_digit(b, 2);
    lemma_edits_digit(b, 3);
    lemma_edits_digit(b, 4);
    lemma_base4_digits_unique(
        edits_digit(a, 0), edits_digit(a, 1), edits_digit(a, 2), edits_digit(a, 3), edits_digit(a, 4),
        edits_digit(b, 0), edits_digit(b, 1), edits_digit(b, 2), edits_digit(b, 3), edits_digit(b, 4),
    );
    assert(forall|o: int| 0 <= o <= 4 ==> edits_digit(a, o) == edits_digit(b, o));
    assert forall|i: int| 0 <= i < a.len() implies drawn_from(#[trigger] a[i], b) by {
        let o = a[i].offset as int;
        lemma_edits_digit(a, o);
        lemma_edits_digit(b, o);
        let j = choose|j: int| 0 <= j < b.len() && (#[trigger] b[j]).offset == o;
        assert(b[j] == a[i]);
    }
    assert forall|i: int| 0 <= i < b.len() implies drawn_from(#[trigger] b[i], a) by {
        let o = b[i].offset as int;
        lemma_edits_digit(a, o);
        lemma_edits_digit(b, o);
        let j = choose|j: int| 0 <= j < a.len() && (#[trigger] a[j]).offset == o;
        assert(a[j] == b[i]);
    }
    lemma_canonical_same_elements(a, b);
}

/// Digit `d` of a code, at offset `o`, is no position or a position that
/// band `c` admits: at most `d - 1` edits away from the diagonal.
spec fn digit_fits(d: int, o: int, c: int) -> bool {
    d == 0 || (c - (d - 1) <= o && o <= c + (d - 1))
}

/// Every digit of code `x` fits band `c`.
spec fn code_in_band(x: int, c: int) -> bool {
    &&& digit_fits(x % 4, 0, c)
    &&& digit_fits((x / 4) % 4, 1, c)
    &&& digit_fits((x / 16) % 4, 2, c)
    &&& digit_fits((x / 64) % 4, 3, c)
    &&& digit_fits((x / 256) % 4, 4, c)
}

proof fn lemma_code_digits(d0: int, d1: int, d2: int, d3: int, d4: int)
    by (nonlinear_arith)
    requires
        0 <= d0 <= 3,
        0 <= d1 <= 3,
        0 <= d2 <= 3,
        0 <= d3 <= 3,
        0 <= d4 <= 3,
    ensures
        ({
            let x = d0 + 4 * d1 + 16 * d2 + 64 * d3 + 256 * d4;
            &&& 0 <= x < 1024
            &&& x % 4 == d0
            &&& (x / 4) % 4 == d1
            &&& (x / 16) % 4 == d2
            &&& (x / 64) % 4 == d3
            &&& (x / 256) % 4 == d4
        }),
{
}

/// The code of a banded state fits its band.
#[verifier::spinoff_prover]
proof fn lemma_state_code_banded(s: Seq<NfaPos>, c: int)
    requires
        canonical(s),
        banded(s, c),
    ensures
        code_in_band(state_code(s), c),
        0 <= state_code(s) < 1024,
        state_code(s) % 4 == edits_digit(s, 0),
{
    assert(edits_bounded(s));
    lemma_edits_digit(s, 0);
    lemma_edits_digit(s, 1);
    lemma_edits_digit(s, 2);
    lemma_edits_digit(s, 3);
    lemma_edits_digit(s, 4);
    lemma_code_digits(edits_digit(s, 0), edits_digit(s, 1), edits_digit(s, 2), edits_digit(s, 3), edits_digit(s, 4));
    assert forall|o: int| 0 <= o <= 4 implies digit_fits(#[trigger] edits_digit(s, o), o, c) by {
        lemma_edits_digit(s, o);
        if edits_digit(s, o) != 0 {
            let i = choose|i: int| 0 <= i < s.len() && (#[trigger] s[i]).offset == o;
            assert(banded(s, c));
            assert(c - s[i].edits <= s[i].offset <= c + s[i].edits);
        }
    }
    assert(digit_fits(edits_digit(s, 0), 0, c));
    assert(digit_fits(edits_digit(s, 1), 1, c));
    assert(digit_fits(edits_digit(s, 2), 2, c));
    assert(digit_fits(edits_digit(s, 3), 3, c));
    assert(digit_fits(edits_digit(s, 4), 4, c));
}

/// A base form is canonical and holds a position at offset 0.
proof fn lemma_base_form_canonical(r: Seq<NfaPos>, positions: Seq<NfaPos>)
    requires
        is_base_form(r, positions),
    ensures
        canonical(r),
        anchored(r),
{
    let m = choose|m: int| is_min_offset(positions, m) && is_normal_form(r, shift_by(positions, m));
    let i = choose|i: int| 0 <= i < positions.len() && (#[trigger] positions[i]).offset == m;
    let shifted = shift_by(positions, m);
    assert(shifted[i].offset == 0);
    assert(covered_by(shifted[i], r));
}

/// How far offset `o` lies from band `c2 - 2`.
spec fn band_distance(o: u32, c2: u32) -> u32 {
    if o + 2 >= c2 {
        (o + 2 - c2) as u32
    } else {
        (c2 - (o + 2)) as u32
    }
}

/// Digit `d` is no position, or a position with at least `far` edits.
spec fn digit_ok(d: u32, far: u32) -> bool {
    d == 0 || d > far
}

/// Code `x` holds a position at offset 0 and every digit fits band
/// `c2 - 2`.
spec fn fits_band(x: u32, c2: u32) -> bool {
    &&& x % 4 > band_distance(0, c2)
    &&& digit_ok((x / 4) % 4, band_distance(1, c2))
    &&& digit_ok((x / 16) % 4, band_distance(2, c2))
    &&& digit_ok((x / 64) % 4, band_distance(3, c2))
    &&& digit_ok((x / 256) % 4, band_distance(4, c2))
}

/// Code `x` fits one of the bands.
spec fn fits_some_band(x: u32) -> bool {
    fits_band(x, 0) || fits_band(x, 1) || fits_band(x, 2) || fits_band(x, 3) || fits_band(x, 4)
}

/// Choices for a digit at distance `far`: none, or one of the admitted edits.
spec fn digit_radix(far: u32) -> u32 {
    if far >= 3 {
        1
    } else {
        (4 - far) as u32
    }
}

/// The rank of digit `d` among the choices at distance `far`.
spec fn digit_rank(d: u32, far: u32) -> u32 {
    if d == 0 {
        0
    } else {
        (d - far) as u32
    }
}

/// The number of code `x` among the codes of band `c2 - 2`, read in mixed
/// radix; offset 0 is always occupied, so its digit has one choice fewer.
spec fn index_in_band(x: u32, c2: u32) -> u32 {
    let f0 = band_distance(0, c2);
    let f1 = band_distance(1, c2);
    let f2 = band_distance(2, c2);
    let f3 = band_distance(3, c2);
    let f4 = band_distance(4, c2);
    ((x % 4 - f0 - 1) + (3 - f0) * (digit_rank((x / 4) % 4, f1) + digit_radix(f1) * (digit_rank((x / 16) % 4, f2)
        + digit_radix(f2) * (digit_rank((x / 64) % 4, f3) + digit_radix(f3) * digit_rank((x / 256) % 4, f4))))) as u32
}

/// A number for each code that fits a band: the bands hold 1, 4, 18, 48
/// and 72 codes, numbered one band after the other, each code under the
/// first band it fits.
spec fn code_index(x: u32) -> u32 {
    if fits_band(x, 0) {
        index_in_band(x, 0)
    } else if fits_band(x, 1) {
        (1 + index_in_band(x, 1)) as u32
    } else if fits_band(x, 2) {
        (5 + index_in_band(x, 2)) as u32
    } else if fits_band(x, 3) {
        (23 + index_in_band(x, 3)) as u32
    } else {
        (71 + index_in_band(x, 4)) as u32
    }
}

/// The most states an automaton can have: the number of codes that fit a
/// band.
pub const MAX_DFA_STATES: usize = 143;

/// Codes that fit a band get distinct numbers below `MAX_DFA_STATES`.
proof fn lemma_code_index(x: u32, y: u32)
    by (bit_vector)
    requires
        x < 1024,
        y < 1024,
        fits_some_band(x),
        fits_some_band(y),
        code_index(x) == code_index(y),
    ensures
        x == y,
        code_index(x) < 143,
{
}

/// A code in band `c` with a position at offset 0 fits that band.
proof fn lemma_fits_band(x: int, c: int)
    requires
        0 <= x < 1024,
        -2 <= c <= 2,
        code_in_band(x, c),
        x % 4 != 0,
    ensures
        fits_some_band(x as u32),
{
    let xu = x as u32;
    assert(xu % 4 == x % 4);
    assert(xu / 4 == x / 4);
    assert(xu / 16 == x / 16);
    assert(xu / 64 == x / 64);
    assert(xu / 256 == x / 256);
    if c == -2 {
        assert(fits_band(xu, 0));
    } else if c == -1 {
        assert(fits_band(xu, 1));
    } else if c == 0 {
        assert(fits_band(xu, 2));
    } else if c == 1 {
        assert(fits_band(xu, 3));
    } else {
        assert(fits_band(xu, 4));
    }
}

/// The state holds a position at offset 0.
spec fn anchored(s: Seq<NfaPos>) -> bool {
    exists|i: int| 0 <= i < s.len() && (#[trigger] s[i]).offset == 0
}

/// Distinct canonical banded states over the offsets 0 to 4, each with a
/// position at offset 0, number at most `MAX_DFA_STATES`.
#[verifier::spinoff_prover]
proof fn lemma_few_states(states: Seq<Seq<NfaPos>>)
    requires
        forall|k: int| 0 <= k < states.len() ==> canonical(#[trigger] states[k]),
        forall|k: int| 0 <= k < states.len() ==> good_state(#[trigger] states[k]),
        forall|k: int| 0 <= k < states.len() ==> anchored(#[trigger] states[k]),
        forall|i: int, j: int| 0 <= i < j < states.len() ==> #[trigger] states[i] != #[trigger] states[j],
    ensures
        states.len() <= MAX_DFA_STATES,
{
    assert forall|k: int| 0 <= k < states.len() implies edits_bounded(#[trigger] states[k])
        && 0 <= state_code(states[k]) < 1024 && fits_some_band(state_code(states[k]) as u32) by {
        let s = states[k];
        assert(good_state(s));
        assert(anchored(s));
        let c = choose|c: int| -2 <= c <= 2 && banded(s, c);
        assert forall|i: int| 0 <= i < s.len() implies (#[trigger] s[i]).edits <= MAX_K by {
            assert(banded(s, c));
        }
        lemma_state_code_banded(s, c);
        lemma_edits_digit(s, 0);
        let i = choose|i: int| 0 <= i < s.len() && (#[trigger] s[i]).offset == 0;
        assert(edits_digit(s, 0) == s[i].edits + 1);
        lemma_fits_band(state_code(s), c);
    }
    let idx = Seq::new(states.len(), |k: int| code_index(state_code(states[k]) as u32) as int);
    assert forall|i: int, j: int| 0 <= i < idx.len() && 0 <= j < idx.len() && i != j implies idx[i] != idx[j] by {
        if idx[i] == idx[j] {
            let xi = state_code(states[i]);
            let xj = state_code(states[j]);
            assert(edits_bounded(states[i]) && 0 <= xi < 1024 && fits_some_band(xi as u32));
            assert(edits_bounded(states[j]) && 0 <= xj < 1024 && fits_some_band(xj as u32));
            lemma_code_index(xi as u32, xj as u32);
            assert(good_state(states[i]) && good_state(states[j]));
            lemma_state_code_injective(states[i], states[j]);
            if i < j {
                assert(states[i] != states[j]);
            } else {
                assert(states[j] != states[i]);
            }
        }
    }
    assert(idx.no_duplicates());
    idx.unique_seq_to_set();
    vstd::set_lib::lemma_int_range(0, 143);
    assert forall|v: int| idx.to_set().contains(v) implies vstd::set_lib::set_int_range(0, 143).contains(v) by {
        let k = choose|k: int| 0 <= k < idx.len() && idx[k] == v;
        let x = state_code(states[k]);
        assert(edits_bounded(states[k]) && 0 <= x < 1024 && fits_some_band(x as u32));
        lemma_code_index(x as u32, x as u32);
    }
    vstd::set_lib::lemma_len_subset(idx.to_set(), vstd::set_lib::set_int_range(0, 143));
}

impl ParametricDFA {
    /// Build the parametric DFA for edit distance k=2: a breadth-first
    /// exploration of the normalized states reachable from the initial one,
    /// eight character classes per state.
    #[verifier::spinoff_prover]
    #[verifier::rlimit(40)]
    pub fn build(with_transpositions: bool) -> (d: Self)
        ensures
            d.wf(),
            1 <= d.num_states <= MAX_DFA_STATES,
            d.with_transpositions == with_transpositions,
            forall|i: int| 0 <= i < d.transitions@.len() ==>
                (#[trigger] d.transitions@[i]) == DEAD_STATE || d.transitions@[i] < d.num_states,
            forall|i: int| 0 <= i < d.accept@.len() ==>
                (#[trigger] d.accept@[i]) <= MAX_K || d.accept@[i] == NOT_ACCEPTING,
            d.follows_automaton(),
            numbered_in_discovery_order(d.transitions@, d.num_states as int),
    {
        let mut initial: Vec<NfaPos> = Vec::new();
        initial.push(NfaPos { offset: 0, edits: 0 });
        initial.push(NfaPos { offset: 1, edits: 1 });
        initial.push(NfaPos { offset: 2, edits: 2 });
        assert(banded(initial@, 0));
        assert(initial@ =~= start_positions());
        let start = shift_to_base(&initial, Ghost(0));
        let ghost start_view = start@;

        proof {
            lemma_base_form_canonical(start_view, start_positions());
        }
        let mut states: Vec<Vec<NfaPos>> = Vec::new();
        states.push(start);
        let mut transitions: Vec<u16> = Vec::new();
        let mut accept: Vec<u8> = Vec::new();
        let mut sid: usize = 0;
        while sid < states.len()
            invariant
                1 <= states@.len() <= MAX_STATES,
                sid <= states@.len(),
                accept@.len() == sid,
                transitions@.len() == NUM_CHAR_CLASSES * sid,
                forall|k: int| 0 <= k < states@.len() ==> good_state(#[trigger] states@[k]@),
                forall|k: int| 0 <= k < states@.len() ==> canonical(#[trigger] states@[k]@) && anchored(states@[k]@),
                forall|i: int| 0 <= i < transitions@.len() ==>
                    (#[trigger] transitions@[i]) == DEAD_STATE || transitions@[i] < states@.len(),
                forall|i: int| 0 <= i < accept@.len() ==>
                    (#[trigger] accept@[i]) <= MAX_K || accept@[i] == NOT_ACCEPTING,
                states@[0]@ == start_view,
                is_base_form(start_view, start_positions()),
                forall|i: int, j: int| 0 <= i < j < states@.len() ==> #[trigger] states@[i]@ != #[trigger] states@[j]@,
                forall|k: int| 0 <= k < sid ==> accept@[k] == accept_of(#[trigger] states@[k]@),
                numbered_in_discovery_order(transitions@, states@.len() as int),
                forall|k: int, cc: int|
                    0 <= k < sid && 0 <= cc < NUM_CHAR_CLASSES ==> transition_follows(
                        state_views(states@),
                        #[trigger] table_entry(transitions@, k, cc),
                        nfa_step(states@[k]@, cc as usize, with_transpositions),
                    ),
            decreases MAX_STATES - sid,
        {
            let state = states[sid].clone();
            assert(state@ =~= states@[sid as int]@);
            assert(good_state(states@[sid as int]@));
            accept.push(accept_distance(&state));
            let ghost c = choose|c: int| -2 <= c <= 2 && banded(state@, c);
            let ghost sid_view = state@;
            let mut cc: usize = 0;
            while cc < NUM_CHAR_CLASSES
                invariant
                    1 <= states@.len() <= MAX_STATES,
                    sid < states@.len(),
                    cc <= NUM_CHAR_CLASSES,
                    good_state(state@),
                    -2 <= c <= 2,
                    banded(state@, c),
                    transitions@.len() == NUM_CHAR_CLASSES * sid + cc,
                    forall|k: int| 0 <= k < states@.len() ==> good_state(#[trigger] states@[k]@),
                    forall|k: int| 0 <= k < states@.len() ==> canonical(#[trigger] states@[k]@) && anchored(states@[k]@),
                    forall|i: int| 0 <= i < transitions@.len() ==>
                        (#[trigger] transitions@[i]) == DEAD_STATE || transitions@[i] < states@.len(),
                    state@ == sid_view,
                    states@[sid as int]@ == sid_view,
                    states@[0]@ == start_view,
                    accept@.len() == sid + 1,
                    forall|k: int| 0 <= k <= sid ==> accept@[k] == accept_of(#[trigger] states@[k]@),
                    numbered_in_discovery_order(transitions@, states@.len() as int),
                    forall|i: int, j: int| 0 <= i < j < states@.len() ==> #[trigger] states@[i]@ != #[trigger] states@[j]@,
                    forall|k: int, cc2: int|
                        0 <= k < sid && 0 <= cc2 < NUM_CHAR_CLASSES ==> transition_follows(
                            state_views(states@),
                            #[trigger] table_entry(transitions@, k, cc2),
                            nfa_step(states@[k]@, cc2 as usize, with_transpositions),
                        ),
                    forall|cc2: int|
                        0 <= cc2 < cc ==> transition_follows(
                            state_views(states@),
                            #[trigger] table_entry(transitions@, sid as int, cc2),
                            nfa_step(sid_view, cc2 as usize, with_transpositions),
                        ),
                decreases NUM_CHAR_CLASSES - cc,
            {
                let ghost old_states = states@;
                let ghost old_views = state_views(states@);
                let ghost old_transitions = transitions@;
                let next = next_positions(&state, cc, with_transpositions, Ghost(c));
                let next_id: u16 = if next.len() == 0 {
                    DEAD_STATE
                } else {
                    let normalized = shift_to_base(&next, Ghost(c + 1));
                    match find_state(&states, &normalized) {
                        Some(id) => {
                            assert(state_views(states@)[id as int] == normalized@);
                            id as u16
                        },
                        None => {
                            if states.len() < MAX_STATES {
                                let id = states.len() as u16;
                                states.push(normalized);
                                proof {
                                    lemma_base_form_canonical(normalized@, next@);
                                    assert(states@[id as int]@ == normalized@);
                                    assert(state_views(states@) =~= old_views.push(normalized@));
                                    assert(state_views(states@)[id as int] == normalized@);
                                    assert forall|i: int, j: int| 0 <= i < j < states@.len() implies #[trigger] states@[i]@
                                        != #[trigger] states@[j]@ by {
                                        if j == old_states.len() {
                                            assert(states@[i] == old_states[i]);
                                        } else {
                                            assert(states@[i] == old_states[i]);
                                            assert(states@[j] == old_states[j]);
                                        }
                                    }
                                }
                                id
                            } else {
                                proof {
                                    assert forall|j: int| 0 <= j < old_views.len() implies !is_base_form(
                                        #[trigger] old_views[j],
                                        next@,
                                    ) by {
                                        if is_base_form(old_views[j], next@) {
                                            let m1 = choose|m: int| is_min_offset(next@, m) && is_normal_form(old_views[j], shift_by(next@, m));
                                            let m2 = choose|m: int| is_min_offset(next@, m) && is_normal_form(normalized@, shift_by(next@, m));
                                            let i1 = choose|i: int| 0 <= i < next@.len() && (#[trigger] next@[i]).offset == m1;
                                            let i2 = choose|i: int| 0 <= i < next@.len() && (#[trigger] next@[i]).offset == m2;
                                            assert(m1 <= next@[i2].offset);
                                            assert(m2 <= next@[i1].offset);
                                            lemma_normal_form_unique(old_views[j], normalized@, shift_by(next@, m1));
                                            assert(states@[j]@ == old_views[j]);
                                        }
                                    }
                                }
                                DEAD_STATE
                            }
                        },
                    }
                };
                transitions.push(next_id);
                proof {
                    let t = transitions@;
                    assert(t.len() == old_transitions.len() + 1);
                    assert forall|p: int|
                        0 <= p < t.len() && #[trigger] t[p] != DEAD_STATE && t[p] >= 2 implies appears_before(t, t[p] - 1, p) by {
                        if p < old_transitions.len() {
                            assert(t[p] == old_transitions[p]);
                            let q = choose|q: int| 0 <= q < p && q < old_transitions.len() && old_transitions[q] == old_transitions[p] - 1;
                            assert(t[q] == old_transitions[q]);
                        } else {
                            let j = next_id - 1;
                            assert(1 <= j < old_states.len());
                            assert(appears_before(old_transitions, j as int, NUM_CHAR_CLASSES * j));
                            let q = choose|q: int| 0 <= q < NUM_CHAR_CLASSES * j && q < old_transitions.len() && old_transitions[q] == j;
                            assert(t[q] == old_transitions[q]);
                        }
                    }
                    assert forall|j: int| 1 <= j < states@.len() implies #[trigger] appears_before(t, j, NUM_CHAR_CLASSES * j) by {
                        if j < old_states.len() {
                            assert(appears_before(old_transitions, j, NUM_CHAR_CLASSES * j));
                            let q = choose|q: int| 0 <= q < NUM_CHAR_CLASSES * j && q < old_transitions.len() && old_transitions[q] == j;
                            assert(t[q] == old_transitions[q]);
                        } else {
                            assert(t[old_transitions.len() as int] == next_id);
                        }
                    }
                    let views = state_views(states@);
                    assert(transition_follows(views, next_id, nfa_step(sid_view, cc as usize, with_transpositions)));
                    assert(table_entry(transitions@, sid as int, cc as int) == next_id);
                    assert forall|k: int, cc2: int|
                        0 <= k < sid && 0 <= cc2 < NUM_CHAR_CLASSES implies transition_follows(
                        views,
                        #[trigger] table_entry(transitions@, k, cc2),
                        nfa_step(states@[k]@, cc2 as usize, with_transpositions),
                    ) by {
                        assert(table_entry(transitions@, k, cc2) == table_entry(old_transitions, k, cc2));
                        assert(states@[k] == old_states[k]);
                        if views.len() != old_views.len() {
                            lemma_follows_push(old_views, views.last(), table_entry(old_transitions, k, cc2), nfa_step(old_states[k]@, cc2 as usize, with_transpositions));
                            assert(views =~= old_views.push(views.last()));
                        } else {
                            assert(views =~= old_views);
                        }
                    }
                    assert forall|cc2: int| 0 <= cc2 < cc + 1 implies transition_follows(
                        views,
                        #[trigger] table_entry(transitions@, sid as int, cc2),
                        nfa_step(sid_view, cc2 as usize, with_transpositions),
                    ) by {
                        if cc2 < cc {
                            assert(table_entry(transitions@, sid as int, cc2) == table_entry(old_transitions, sid as int, cc2));
                            if views.len() != old_views.len() {
                                lemma_follows_push(old_views, views.last(), table_entry(old_transitions, sid as int, cc2), nfa_step(sid_view, cc2 as usize, with_transpositions));
                                assert(views =~= old_views.push(views.last()));
                            } else {
                                assert(views =~= old_views);
                            }
                        }
                    }
                    assert forall|k: int| 0 <= k <= sid implies accept@[k] == accept_of(#[trigger] states@[k]@) by {
                        assert(states@[k] == old_states[k]);
                    }
                }
                cc = cc + 1;
            }
            proof {
                assert forall|k: int, cc2: int|
                    0 <= k < sid + 1 && 0 <= cc2 < NUM_CHAR_CLASSES implies transition_follows(
                    state_views(states@),
                    #[trigger] table_entry(transitions@, k, cc2),
                    nfa_step(states@[k]@, cc2 as usize, with_transpositions),
                ) by {
                    if k == sid {
                        assert(states@[k]@ == sid_view);
                    }
                }
            }
            sid = sid + 1;
        }
        let d = ParametricDFA {
            accept,
            transitions,
            num_states: states.len() as u16,
            with_transpositions,
        };
        proof {
            let views = state_views(states@);
            assert(views[0] == start_view);
            assert forall|i: int, j: int| 0 <= i < j < views.len() implies #[trigger] views[i] != #[trigger] views[j] by {
                assert(states@[i]@ != states@[j]@);
            }
            assert forall|k: int| 0 <= k < views.len() implies d.accept@[k] == accept_of(#[trigger] views[k]) by {
                assert(accept@[k] == accept_of(states@[k]@));
            }
            assert forall|k: int, cc2: int|
                0 <= k < views.len() && 0 <= cc2 < NUM_CHAR_CLASSES implies transition_follows(
                views,
                #[trigger] table_entry(d.transitions@, k, cc2),
                nfa_step(views[k], cc2 as usize, d.with_transpositions),
            ) by {
                assert(table_entry(d.transitions@, k, cc2) == table_entry(transitions@, k, cc2));
            }
            assert(explores(d, views));
            assert forall|k: int| 0 <= k < views.len() implies canonical(#[trigger] views[k]) && good_state(views[k])
                && anchored(views[k]) by {
                assert(views[k] == states@[k]@);
            }
            lemma_few_states(views);
        }
        d
    }
}

} // verus!
