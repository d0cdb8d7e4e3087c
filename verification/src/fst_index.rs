//! The vocabulary index: the sorted vocabulary of the documents' words, an
//! inverted index from each term to its occurrences, and a suffix array
//! over the vocabulary for prefix search.
//!
//! ```text
//! 1. split each text into words (maximal runs of alphanumeric characters),
//!    each lowercased and tagged with its byte offset
//! 2. collect the distinct terms in byte order
//! 3. list each term's occurrences in document order
//! 4. build the vocabulary suffix array (SA-IS)
//! ```

use vstd::prelude::*;
use vstd::utf8::{char_is_scalar, encode_scalar, encode_utf8, encode_utf8_decode_utf8};

use crate::binary::docs::{encode_docs_binary, opt_view, spec_encode_docs, strings_view, DocFields, DocMetaInput};
use crate::binary::layer::{posting_lists_view, spec_built, spec_layer_bytes, BinaryLayer, LayerParts};
use crate::binary::postings::PostingEntry;
use crate::builder::{
    build_section_table, carries_section, holds_anchor, lemma_section_table_determined, section_index, section_number,
    strictly_sorted,
};
use crate::error::FormatError;
use crate::display::{lowercase_of, to_lowercase};
use crate::levenshtein::chars_of;
use crate::sais::{build_vocab_suffix_array_sais, entry_suffix, holds_entry, vocab_entry_valid};
use crate::script_source::push_char;
use crate::text::{compare_bytes, lemma_lex_irreflexive, lemma_lex_total, lemma_lex_trans, lex_lt, Comparison};
use crate::types::{FieldBoundary, FieldType, SearchDoc, VocabSuffixEntry};

verus! {

// ============================================================================
// WORDS
// ============================================================================

/// Whether `c` is alphanumeric in Unicode's sense (alphabetic or numeric).
pub uninterp spec fn alphanumeric(c: char) -> bool;

/// Calls `char::is_alphanumeric`. Trusted: the answer is a function of the
/// character alone; which characters qualify (Unicode's Alphabetic and
/// Numeric properties) is not stated.
#[verifier::external_body]
fn is_alphanumeric(c: char) -> (r: bool)
    ensures
        r == alphanumeric(c),
{
    c.is_alphanumeric()
}

/// Where the run of alphanumeric characters from `i` ends.
pub open spec fn word_end(s: Seq<char>, i: nat) -> nat
    decreases s.len() - i,
{
    if i < s.len() && alphanumeric(s[i as int]) {
        word_end(s, i + 1)
    } else {
        i
    }
}

/// A run ends between its start and the end of the text, after its start
/// when that is alphanumeric.
pub proof fn lemma_word_end(s: Seq<char>, i: nat)
    requires
        i <= s.len(),
    ensures
        i <= word_end(s, i) <= s.len(),
        i < s.len() && alphanumeric(s[i as int]) ==> word_end(s, i) > i,
    decreases s.len() - i,
{
    if i < s.len() && alphanumeric(s[i as int]) {
        lemma_word_end(s, i + 1);
    }
}

/// The words of `s` from character `i` on: each maximal run of
/// alphanumeric characters, lowercased, with the byte offset where it
/// starts; a run whose lowercase form is empty is left out.
pub open spec fn tokens_from(s: Seq<char>, i: nat) -> Seq<(Seq<char>, nat)>
    decreases s.len() - i,
{
    if i >= s.len() {
        seq![]
    } else if !alphanumeric(s[i as int]) {
        tokens_from(s, i + 1)
    } else {
        proof {
            lemma_word_end(s, i);
        }
        let e = word_end(s, i);
        let w = lowercase_of(s.subrange(i as int, e as int));
        if w.len() > 0 {
            seq![(w, encode_utf8(s.take(i as int)).len())] + tokens_from(s, e)
        } else {
            tokens_from(s, e)
        }
    }
}

/// The words of a text, in order.
pub open spec fn tokens_of(s: Seq<char>) -> Seq<(Seq<char>, nat)> {
    tokens_from(s, 0)
}

/// Characters `i` to `e` form a word: a maximal run of alphanumeric
/// characters, preceded and followed by none.
pub open spec fn maximal_run(s: Seq<char>, i: int, e: int) -> bool {
    &&& 0 <= i < e <= s.len()
    &&& forall|k: int| i <= k < e ==> alphanumeric(#[trigger] s[k])
    &&& i == 0 || !alphanumeric(s[i - 1])
    &&& e == s.len() || !alphanumeric(s[e])
}

/// The token a word gives: its lowercase form and the byte offset where it
/// starts.
pub open spec fn word_token(s: Seq<char>, i: int, e: int) -> (Seq<char>, nat) {
    (lowercase_of(s.subrange(i, e)), encode_utf8(s.take(i)).len())
}

/// The run from `i` is all alphanumeric and stops at the end or at a
/// character that is not.
proof fn lemma_word_end_stops(s: Seq<char>, i: nat)
    requires
        i <= s.len(),
    ensures
        forall|k: int| i <= k < word_end(s, i) ==> alphanumeric(#[trigger] s[k]),
        word_end(s, i) == s.len() || !alphanumeric(s[word_end(s, i) as int]),
    decreases s.len() - i,
{
    lemma_word_end(s, i);
    if i < s.len() && alphanumeric(s[i as int]) {
        lemma_word_end_stops(s, i + 1);
    }
}

/// From inside a word, the run ends where the word does.
proof fn lemma_word_end_in_run(s: Seq<char>, i: int, e: int, k: int)
    requires
        maximal_run(s, i, e),
        i <= k <= e,
    ensures
        word_end(s, k as nat) == e,
    decreases e - k,
{
    if k < e {
        assert(alphanumeric(s[k]));
        lemma_word_end_in_run(s, i, e, k + 1);
    }
}

/// A run cannot pass a character that is not alphanumeric.
proof fn lemma_word_end_before(s: Seq<char>, j: nat, m: int)
    requires
        j <= m < s.len(),
        !alphanumeric(s[m]),
    ensures
        word_end(s, j) <= m,
    decreases m - j,
{
    if alphanumeric(s[j as int]) {
        lemma_word_end_before(s, j + 1, m);
    }
}

proof fn lemma_contains_after(a: Seq<(Seq<char>, nat)>, t: Seq<(Seq<char>, nat)>, x: (Seq<char>, nat))
    requires
        t.contains(x),
    ensures
        (a + t).contains(x),
{
    let j = choose|j: int| 0 <= j < t.len() && t[j] == x;
    assert((a + t)[a.len() + j] == x);
}

/// Scanning from any position up to a word's start reaches the word.
proof fn lemma_tokens_reach(s: Seq<char>, j: int, i: int, e: int)
    requires
        maximal_run(s, i, e),
        lowercase_of(s.subrange(i, e)).len() > 0,
        0 <= j <= i,
    ensures
        tokens_from(s, j as nat).contains(word_token(s, i, e)),
    decreases i - j,
{
    if j == i {
        assert(alphanumeric(s[i]));
        lemma_word_end_in_run(s, i, e, i);
        let t = seq![word_token(s, i, e)] + tokens_from(s, e as nat);
        assert(tokens_from(s, j as nat) == t);
        assert(t[0] == word_token(s, i, e));
    } else if !alphanumeric(s[j]) {
        lemma_tokens_reach(s, j + 1, i, e);
    } else {
        lemma_word_end(s, j as nat);
        lemma_word_end_before(s, j as nat, i - 1);
        let f = word_end(s, j as nat) as int;
        lemma_tokens_reach(s, f, i, e);
        let w = lowercase_of(s.subrange(j, f));
        if w.len() > 0 {
            lemma_contains_after(seq![(w, encode_utf8(s.take(j)).len())], tokens_from(s, f as nat), word_token(s, i, e));
        }
    }
}

/// Every word of a text whose lowercase form is not empty is among its
/// tokens, with the byte offset where it starts.
pub proof fn lemma_tokens_keep_every_word(s: Seq<char>, i: int, e: int)
    requires
        maximal_run(s, i, e),
        lowercase_of(s.subrange(i, e)).len() > 0,
    ensures
        tokens_of(s).contains(word_token(s, i, e)),
{
    lemma_tokens_reach(s, 0, i, e);
}

/// `x` is the token of a word starting at character `j` or later.
pub open spec fn word_token_from(s: Seq<char>, j: int, x: (Seq<char>, nat)) -> bool {
    exists|i: int, e: int| #[trigger] maximal_run(s, i, e) && j <= i && x == word_token(s, i, e)
}

/// Every token from a position outside any word's interior is the token of
/// a word starting there or later.
proof fn lemma_tokens_sound(s: Seq<char>, j: int)
    requires
        0 <= j,
        j == 0 || j >= s.len() || !alphanumeric(s[j - 1]) || !alphanumeric(s[j]),
    ensures
        forall|k: int| 0 <= k < tokens_from(s, j as nat).len() ==> word_token_from(s, j, #[trigger] tokens_from(s, j as nat)[k]),
    decreases s.len() - j,
{
    let all = tokens_from(s, j as nat);
    if j >= s.len() {
        assert(all.len() == 0);
    } else if !alphanumeric(s[j]) {
        lemma_tokens_sound(s, j + 1);
        assert(all == tokens_from(s, (j + 1) as nat));
        assert forall|k: int| 0 <= k < all.len() implies word_token_from(s, j, #[trigger] all[k]) by {
            assert(word_token_from(s, j + 1, tokens_from(s, (j + 1) as nat)[k]));
            let (i, e) = choose|i: int, e: int| #[trigger] maximal_run(s, i, e) && j + 1 <= i
                && tokens_from(s, (j + 1) as nat)[k] == word_token(s, i, e);
            assert(maximal_run(s, i, e) && j <= i);
        }
    } else {
        lemma_word_end(s, j as nat);
        lemma_word_end_stops(s, j as nat);
        let f = word_end(s, j as nat) as int;
        assert(maximal_run(s, j, f));
        lemma_tokens_sound(s, f);
        let rest = tokens_from(s, f as nat);
        let w = lowercase_of(s.subrange(j, f));
        assert forall|k: int| 0 <= k < all.len() implies word_token_from(s, j, #[trigger] all[k]) by {
            if w.len() > 0 {
                assert(all == seq![word_token(s, j, f)] + rest);
                if k == 0 {
                    assert(maximal_run(s, j, f) && all[0] == word_token(s, j, f));
                } else {
                    assert(all[k] == rest[k - 1]);
                    assert(word_token_from(s, f, rest[k - 1]));
                    let (i, e) = choose|i: int, e: int| #[trigger] maximal_run(s, i, e) && f <= i && rest[k - 1] == word_token(s, i, e);
                    assert(maximal_run(s, i, e) && j <= i);
                }
            } else {
                assert(all == rest);
                assert(word_token_from(s, f, rest[k]));
                let (i, e) = choose|i: int, e: int| #[trigger] maximal_run(s, i, e) && f <= i && rest[k] == word_token(s, i, e);
                assert(maximal_run(s, i, e) && j <= i);
            }
        }
    }
}

/// Every token of a text is the lowercase form of one of its words, with
/// the byte offset where that word starts.
pub proof fn lemma_tokens_are_words(s: Seq<char>)
    ensures
        forall|k: int| 0 <= k < tokens_of(s).len() ==> word_token_from(s, 0, #[trigger] tokens_of(s)[k]),
{
    lemma_tokens_sound(s, 0);
    assert(tokens_of(s) == tokens_from(s, 0int as nat));
}

/// Tokens as (characters, offset).
pub open spec fn tokens_view(t: Seq<(String, usize)>) -> Seq<(Seq<char>, nat)> {
    t.map_values(|x: (String, usize)| (x.0@, x.1 as nat))
}

proof fn lemma_encode_utf8_concat(a: Seq<char>, b: Seq<char>)
    ensures
        encode_utf8(a + b) == encode_utf8(a) + encode_utf8(b),
    decreases a.len(),
{
    if a.len() == 0 {
        assert(a + b =~= b);
        assert(encode_utf8(a) =~= Seq::<u8>::empty());
        assert(encode_utf8(a) + encode_utf8(b) =~= encode_utf8(b));
    } else {
        lemma_encode_utf8_concat(a.drop_first(), b);
        assert((a + b).drop_first() =~= a.drop_first() + b);
        assert((a + b)[0] == a[0]);
        assert(encode_utf8(a + b) =~= encode_scalar(a[0] as u32) + (encode_utf8(a.drop_first()) + encode_utf8(b)));
    }
}

/// One more character adds its UTF-8 width; a prefix is no longer than the
/// whole.
proof fn lemma_take_step(s: Seq<char>, i: int)
    requires
        0 <= i < s.len(),
    ensures
        encode_utf8(s.take(i + 1)).len() == encode_utf8(s.take(i)).len() + encode_scalar(s[i] as u32).len(),
        encode_utf8(s.take(i + 1)).len() <= encode_utf8(s).len(),
{
    lemma_encode_utf8_concat(s.take(i), seq![s[i]]);
    assert(s.take(i) + seq![s[i]] =~= s.take(i + 1));
    let one = seq![s[i]];
    assert(one.len() == 1 && one[0] == s[i]);
    assert(one.drop_first() =~= Seq::<char>::empty());
    assert(encode_utf8(one.drop_first()) =~= Seq::<u8>::empty());
    assert(encode_utf8(one) == encode_scalar(one[0] as u32) + encode_utf8(one.drop_first()));
    assert(encode_utf8(one) =~= encode_scalar(s[i] as u32));
    lemma_encode_utf8_concat(s.take(i + 1), s.skip(i + 1));
    assert(s.take(i + 1) + s.skip(i + 1) =~= s);
}

/// The number of bytes UTF-8 takes for `c`.
fn utf8_width(c: char) -> (w: usize)
    ensures
        w == encode_scalar(c as u32).len(),
{
    proof {
        char_is_scalar(c);
    }
    let v = c as u32;
    if v <= 0x7F {
        1
    } else if v <= 0x7FF {
        2
    } else if v <= 0xFFFF {
        3
    } else {
        4
    }
}

/// Split a text into lowercased words with their byte offsets.
pub fn tokenize(text: &str) -> (r: Vec<(String, usize)>)
    ensures
        tokens_view(r@) == tokens_of(text@),
{
    let ghost s = text@;
    let chars = chars_of(text);
    let n = chars.len();
    let total = text.as_bytes().len();
    let mut out: Vec<(String, usize)> = Vec::new();
    let mut i: usize = 0;
    let mut b: usize = 0;
    assert(s.take(0) =~= Seq::<char>::empty());
    assert(tokens_view(out@) =~= Seq::<(Seq<char>, nat)>::empty());
    while i < n
        invariant
            n == s.len(),
            chars@ == s,
            s == text@,
            total == encode_utf8(s).len(),
            i <= n,
            b == encode_utf8(s.take(i as int)).len(),
            tokens_view(out@) + tokens_from(s, i as nat) == tokens_of(s),
        decreases n - i,
    {
        let c = chars[i];
        if !is_alphanumeric(c) {
            let w = utf8_width(c);
            proof {
                lemma_take_step(s, i as int);
            }
            b = b + w;
            i = i + 1;
        } else {
            let start: usize = i;
            let start_b: usize = b;
            let mut word = String::new();
            assert(s.subrange(start as int, i as int) =~= Seq::<char>::empty());
            while i < n && is_alphanumeric(chars[i])
                invariant
                    n == s.len(),
                    chars@ == s,
                    total == encode_utf8(s).len(),
                    start <= i <= n,
                    word@ == s.subrange(start as int, i as int),
                    b == encode_utf8(s.take(i as int)).len(),
                    word_end(s, start as nat) == word_end(s, i as nat),
                decreases n - i,
            {
                let w = utf8_width(chars[i]);
                proof {
                    lemma_take_step(s, i as int);
                }
                push_char(&mut word, chars[i]);
                assert(word@ =~= s.subrange(start as int, i + 1));
                b = b + w;
                i = i + 1;
            }
            let lower = to_lowercase(word.as_str());
            let ghost before = out@;
            if lower.as_str().unicode_len() > 0 {
                out.push((lower, start_b));
                assert(tokens_view(out@) =~= tokens_view(before).push((lower@, start_b as nat)));
                assert(tokens_view(before).push((lower@, start_b as nat)) + tokens_from(s, i as nat)
                    =~= tokens_view(before) + (seq![(lower@, start_b as nat)] + tokens_from(s, i as nat)));
            }
        }
    }
    assert(tokens_from(s, i as nat) =~= Seq::<(Seq<char>, nat)>::empty());
    assert(tokens_view(out@) + tokens_from(s, i as nat) =~= tokens_view(out@));
    out
}

// ============================================================================
// OCCURRENCES
// ============================================================================

/// Tokens of document `d` as (term, document, offset).
pub open spec fn tag_tokens(t: Seq<(Seq<char>, nat)>, d: nat) -> Seq<(Seq<char>, nat, nat)> {
    t.map_values(|x: (Seq<char>, nat)| (x.0, d, x.1))
}

/// Every word of every text as (term, document, offset), in document order
/// and, within a document, in text order.
pub open spec fn occurrences(texts: Seq<Seq<char>>) -> Seq<(Seq<char>, nat, nat)>
    decreases texts.len(),
{
    if texts.len() == 0 {
        seq![]
    } else {
        occurrences(texts.drop_last()) + tag_tokens(tokens_of(texts.last()), (texts.len() - 1) as nat)
    }
}

/// Occurrences as (term, document, offset).
pub open spec fn occ_view(o: Seq<(String, usize, usize)>) -> Seq<(Seq<char>, nat, nat)> {
    o.map_values(|x: (String, usize, usize)| (x.0@, x.1 as nat, x.2 as nat))
}

fn all_occurrences(texts: &Vec<String>) -> (r: Vec<(String, usize, usize)>)
    ensures
        occ_view(r@) == occurrences(strings_view(texts@)),
{
    let ghost tv = strings_view(texts@);
    let mut out: Vec<(String, usize, usize)> = Vec::new();
    let mut d: usize = 0;
    assert(tv.take(0) =~= Seq::<Seq<char>>::empty());
    assert(occ_view(out@) =~= Seq::<(Seq<char>, nat, nat)>::empty());
    while d < texts.len()
        invariant
            d <= texts@.len(),
            tv == strings_view(texts@),
            tv.len() == texts@.len(),
            occ_view(out@) == occurrences(tv.take(d as int)),
        decreases texts@.len() - d,
    {
        let toks = tokenize(texts[d].as_str());
        let ghost before = occ_view(out@);
        let ghost tt = tokens_view(toks@);
        let mut k: usize = 0;
        assert(tag_tokens(tt.take(0), d as nat) =~= Seq::<(Seq<char>, nat, nat)>::empty());
        assert(before + tag_tokens(tt.take(0), d as nat) =~= before);
        while k < toks.len()
            invariant
                k <= toks@.len(),
                tt == tokens_view(toks@),
                occ_view(out@) == before + tag_tokens(tt.take(k as int), d as nat),
            decreases toks@.len() - k,
        {
            let ghost prev = out@;
            out.push((toks[k].0.clone(), d, toks[k].1));
            assert(occ_view(out@) =~= occ_view(prev).push((tt[k as int].0, d as nat, tt[k as int].1)));
            assert(tag_tokens(tt.take(k + 1), d as nat) =~= tag_tokens(tt.take(k as int), d as nat).push(
                (tt[k as int].0, d as nat, tt[k as int].1),
            ));
            k = k + 1;
        }
        proof {
            assert(tt.take(k as int) =~= tt);
            assert(tv.take(d + 1).drop_last() =~= tv.take(d as int));
            assert(tv.take(d + 1).last() == texts@[d as int]@);
        }
        d = d + 1;
    }
    assert(tv.take(d as int) =~= tv);
    out
}

// ============================================================================
// VOCABULARY
// ============================================================================

/// `a` comes before `b` in byte order.
pub open spec fn term_before(a: Seq<char>, b: Seq<char>) -> bool {
    lex_lt(encode_utf8(a), encode_utf8(b))
}

/// Strictly increasing in byte order (so without repeats).
pub open spec fn sorted_terms(v: Seq<Seq<char>>) -> bool {
    forall|i: int, j: int| 0 <= i < j < v.len() ==> term_before(#[trigger] v[i], #[trigger] v[j])
}

/// `t` is the term of some occurrence.
pub open spec fn occurs(occ: Seq<(Seq<char>, nat, nat)>, t: Seq<char>) -> bool {
    exists|k: int| 0 <= k < occ.len() && (#[trigger] occ[k]).0 == t
}

/// `t` is the term of one of the first `k` occurrences.
pub open spec fn occurs_among(occ: Seq<(Seq<char>, nat, nat)>, k: int, t: Seq<char>) -> bool {
    exists|q: int| 0 <= q < k && q < occ.len() && (#[trigger] occ[q]).0 == t
}

/// `v` is the vocabulary of the occurrences: their distinct terms, in byte
/// order.
pub open spec fn is_vocabulary_of(v: Seq<Seq<char>>, occ: Seq<(Seq<char>, nat, nat)>) -> bool {
    &&& sorted_terms(v)
    &&& forall|i: int| 0 <= i < v.len() ==> occurs(occ, #[trigger] v[i])
    &&& forall|k: int| 0 <= k < occ.len() ==> v.contains((#[trigger] occ[k]).0)
}

/// Whether `a` comes before `b` in byte order.
fn term_is_before(a: &String, b: &String) -> (r: bool)
    ensures
        r == term_before(a@, b@),
{
    match compare_bytes(a.as_str().as_bytes(), b.as_str().as_bytes()) {
        Comparison::Less => true,
        _ => false,
    }
}

/// Two different terms are ordered one way or the other.
proof fn lemma_terms_ordered(a: Seq<char>, b: Seq<char>)
    requires
        a != b,
    ensures
        term_before(a, b) || term_before(b, a),
{
    lemma_lex_total(encode_utf8(a), encode_utf8(b));
    if encode_utf8(a) == encode_utf8(b) {
        encode_utf8_decode_utf8(a);
        encode_utf8_decode_utf8(b);
    }
}

fn build_vocabulary(occ: &Vec<(String, usize, usize)>) -> (v: Vec<String>)
    ensures
        is_vocabulary_of(strings_view(v@), occ_view(occ@)),
{
    let ghost ov = occ_view(occ@);
    let mut v: Vec<String> = Vec::new();
    let mut k: usize = 0;
    while k < occ.len()
        invariant
            k <= occ@.len(),
            ov == occ_view(occ@),
            ov.len() == occ@.len(),
            sorted_terms(strings_view(v@)),
            forall|i: int| 0 <= i < v@.len() ==> occurs_among(ov, k as int, #[trigger] strings_view(v@)[i]),
            forall|q: int| 0 <= q < k ==> strings_view(v@).contains((#[trigger] ov[q]).0),
        decreases occ@.len() - k,
    {
        let w = &occ[k].0;
        let ghost wv = w@;
        let ghost sv = strings_view(v@);
        assert(ov[k as int].0 == wv);
        let mut idx: usize = 0;
        while idx < v.len() && term_is_before(&v[idx], w)
            invariant
                idx <= v@.len(),
                sv == strings_view(v@),
                sv.len() == v@.len(),
                wv == w@,
                forall|i: int| 0 <= i < idx ==> term_before(#[trigger] sv[i], wv),
            decreases v@.len() - idx,
        {
            idx = idx + 1;
        }
        if idx < v.len() && v[idx] == *w {
            assert(sv[idx as int] == wv);
            assert(sv.contains(wv));
        } else {
            proof {
                if idx < sv.len() {
                    assert(sv[idx as int] != wv);
                    lemma_terms_ordered(sv[idx as int], wv);
                }
            }
            v.insert(idx, w.clone());
            proof {
                let nv = strings_view(v@);
                assert(nv =~= sv.insert(idx as int, wv));
                assert forall|i: int, j: int| 0 <= i < j < nv.len() implies term_before(#[trigger] nv[i], #[trigger] nv[j]) by {
                    if j < idx {
                        assert(nv[i] == sv[i] && nv[j] == sv[j]);
                    } else if j == idx {
                        assert(nv[i] == sv[i]);
                    } else if i == idx {
                        assert(nv[j] == sv[j - 1]);
                        if j - 1 > idx {
                            lemma_lex_trans(encode_utf8(wv), encode_utf8(sv[idx as int]), encode_utf8(sv[j - 1]));
                        }
                    } else if i < idx {
                        assert(nv[i] == sv[i] && nv[j] == sv[j - 1]);
                        if j - 1 > idx {
                            lemma_lex_trans(encode_utf8(wv), encode_utf8(sv[idx as int]), encode_utf8(sv[j - 1]));
                        }
                        lemma_lex_trans(encode_utf8(sv[i]), encode_utf8(wv), encode_utf8(sv[j - 1]));
                    } else {
                        assert(nv[i] == sv[i - 1] && nv[j] == sv[j - 1]);
                    }
                }
                assert forall|i: int| 0 <= i < nv.len() implies occurs_among(ov, k + 1, #[trigger] nv[i]) by {
                    if i < idx {
                        assert(nv[i] == sv[i]);
                        assert(occurs_among(ov, k as int, sv[i]));
                    } else if i == idx {
                        assert(ov[k as int].0 == nv[i]);
                    } else {
                        assert(nv[i] == sv[i - 1]);
                        assert(occurs_among(ov, k as int, sv[i - 1]));
                    }
                }
                assert forall|q: int| 0 <= q < k + 1 implies nv.contains((#[trigger] ov[q]).0) by {
                    if q == k {
                        assert(nv[idx as int] == wv);
                    } else {
                        assert(sv.contains(ov[q].0));
                        let i0 = choose|i: int| 0 <= i < sv.len() && sv[i] == ov[q].0;
                        if i0 < idx {
                            assert(nv[i0] == sv[i0]);
                        } else {
                            assert(nv[i0 + 1] == sv[i0]);
                        }
                    }
                }
            }
        }
        k = k + 1;
    }
    proof {
        assert forall|i: int| 0 <= i < v@.len() implies occurs(ov, #[trigger] strings_view(v@)[i]) by {
            assert(occurs_among(ov, k as int, strings_view(v@)[i]));
        }
    }
    v
}

// ============================================================================
// POSTINGS
// ============================================================================

/// The field a position lies in, with its section anchor: the first
/// boundary of the document that contains it decides; content, with no
/// anchor, when none does.
pub open spec fn field_info(b: Seq<FieldBoundary>, d: nat, off: nat) -> (FieldType, Option<Seq<char>>)
    decreases b.len(),
{
    if b.len() == 0 {
        (FieldType::Content, None)
    } else if b[0].doc_id == d && b[0].start <= off && off < b[0].end {
        (b[0].field_type, opt_view(b[0].section_id))
    } else {
        field_info(b.drop_first(), d, off)
    }
}

/// One occurrence of a term.
#[derive(Debug, Clone)]
pub struct Posting {
    pub doc_id: usize,
    /// Byte offset of the word in its text
    pub offset: usize,
    pub field_type: FieldType,
    /// Section anchor of the position, if any
    pub section_id: Option<String>,
}

/// The occurrences of a term and the number of documents they fall in.
#[derive(Debug, Clone)]
pub struct PostingList {
    pub postings: Vec<Posting>,
    pub doc_freq: usize,
}

/// Postings as (document, offset, field, anchor).
pub open spec fn posting_view(p: Seq<Posting>) -> Seq<(nat, nat, FieldType, Option<Seq<char>>)> {
    p.map_values(|x: Posting| (x.doc_id as nat, x.offset as nat, x.field_type, opt_view(x.section_id)))
}

/// The occurrences of `t`, in document order, each with the field it lies in.
pub open spec fn postings_of(t: Seq<char>, occ: Seq<(Seq<char>, nat, nat)>, b: Seq<FieldBoundary>) -> Seq<
    (nat, nat, FieldType, Option<Seq<char>>),
>
    decreases occ.len(),
{
    if occ.len() == 0 {
        seq![]
    } else {
        let rest = postings_of(t, occ.drop_last(), b);
        let o = occ.last();
        if o.0 == t {
            let f = field_info(b, o.1, o.2);
            rest.push((o.1, o.2, f.0, f.1))
        } else {
            rest
        }
    }
}

/// The number of documents of a list in document order: the places where
/// the document changes, the first entry included.
pub open spec fn doc_count_of(p: Seq<(nat, nat, FieldType, Option<Seq<char>>)>) -> nat
    decreases p.len(),
{
    if p.len() == 0 {
        0
    } else if p.len() == 1 || p.last().0 != p[p.len() - 2].0 {
        doc_count_of(p.drop_last()) + 1
    } else {
        doc_count_of(p.drop_last())
    }
}

fn copy_anchor(a: &Option<String>) -> (r: Option<String>)
    ensures
        opt_view(r) == opt_view(*a),
{
    match a {
        Some(s) => Some(s.clone()),
        None => None,
    }
}

/// The field and anchor of a position.
fn get_field_info(boundaries: &Vec<FieldBoundary>, doc_id: usize, offset: usize) -> (r: (FieldType, Option<String>))
    ensures
        (r.0, opt_view(r.1)) == field_info(boundaries@, doc_id as nat, offset as nat),
{
    let mut i: usize = 0;
    assert(boundaries@.skip(0) =~= boundaries@);
    while i < boundaries.len()
        invariant
            i <= boundaries@.len(),
            field_info(boundaries@, doc_id as nat, offset as nat) == field_info(
                boundaries@.skip(i as int),
                doc_id as nat,
                offset as nat,
            ),
        decreases boundaries@.len() - i,
    {
        let b = &boundaries[i];
        assert(boundaries@.skip(i as int)[0] == boundaries@[i as int]);
        if b.doc_id == doc_id && offset >= b.start && offset < b.end {
            return (b.field_type, copy_anchor(&b.section_id));
        }
        assert(boundaries@.skip(i as int).drop_first() =~= boundaries@.skip(i as int + 1));
        i = i + 1;
    }
    assert(boundaries@.skip(i as int) =~= Seq::<FieldBoundary>::empty());
    (FieldType::Content, None)
}

/// The posting list of `term` over the occurrences.
fn collect_postings(term: &String, occ: &Vec<(String, usize, usize)>, boundaries: &Vec<FieldBoundary>) -> (r: PostingList)
    ensures
        posting_view(r.postings@) == postings_of(term@, occ_view(occ@), boundaries@),
        r.doc_freq == doc_count_of(posting_view(r.postings@)),
{
    let ghost ov = occ_view(occ@);
    let mut postings: Vec<Posting> = Vec::new();
    let mut freq: usize = 0;
    let mut k: usize = 0;
    assert(ov.take(0) =~= Seq::<(Seq<char>, nat, nat)>::empty());
    assert(posting_view(postings@) =~= Seq::<(nat, nat, FieldType, Option<Seq<char>>)>::empty());
    while k < occ.len()
        invariant
            k <= occ@.len(),
            ov == occ_view(occ@),
            ov.len() == occ@.len(),
            posting_view(postings@) == postings_of(term@, ov.take(k as int), boundaries@),
            freq == doc_count_of(posting_view(postings@)),
            freq <= k,
        decreases occ@.len() - k,
    {
        proof {
            assert(ov.take(k + 1).drop_last() =~= ov.take(k as int));
            assert(ov.take(k + 1).last() == ov[k as int]);
        }
        if occ[k].0 == *term {
            let d = occ[k].1;
            let off = occ[k].2;
            let new_doc = postings.len() == 0 || postings[postings.len() - 1].doc_id != d;
            let (field_type, section_id) = get_field_info(boundaries, d, off);
            let ghost before = posting_view(postings@);
            postings.push(Posting { doc_id: d, offset: off, field_type, section_id });
            proof {
                let after = posting_view(postings@);
                assert(after =~= before.push((d as nat, off as nat, field_type, opt_view(section_id))));
                assert(after.drop_last() =~= before);
                if before.len() > 0 {
                    assert(after[after.len() - 2] == before.last());
                }
            }
            if new_doc {
                freq = freq + 1;
            }
        }
        k = k + 1;
    }
    assert(ov.take(k as int) =~= ov);
    PostingList { postings, doc_freq: freq }
}

// ============================================================================
// THE INDEX
// ============================================================================

/// Each term with its posting list, in vocabulary order, and the number of
/// documents.
#[derive(Debug, Clone)]
pub struct InvertedIndex {
    pub terms: Vec<(String, PostingList)>,
    pub total_docs: usize,
}

/// Index with vocabulary for efficient search: the documents, the sorted
/// vocabulary, the inverted index and a suffix array over the vocabulary.
#[derive(Debug, Clone)]
pub struct FstIndex {
    /// Document metadata
    pub docs: Vec<SearchDoc>,
    /// Document texts (for snippet extraction)
    pub texts: Vec<String>,
    /// Field boundaries for scoring
    pub field_boundaries: Vec<FieldBoundary>,
    /// Inverted index: term to posting list
    pub inverted_index: InvertedIndex,
    /// Sorted vocabulary terms
    pub vocabulary: Vec<String>,
    /// Suffix array over the vocabulary
    pub vocab_suffix_array: Vec<VocabSuffixEntry>,
}

/// The vocabulary suffix array: every suffix of every term once, in byte
/// order of the suffixes of the separator-joined vocabulary.
pub open spec fn is_vocab_suffix_array(vocab: Seq<String>, entries: Seq<VocabSuffixEntry>) -> bool {
    &&& forall|i: int| 0 <= i < entries.len() ==> vocab_entry_valid(vocab, #[trigger] entries[i])
    &&& forall|e: VocabSuffixEntry| vocab_entry_valid(vocab, e) ==> #[trigger] holds_entry(entries, e)
    &&& forall|i: int, j: int|
        0 <= i < j < entries.len() ==> lex_lt(
            entry_suffix(vocab, #[trigger] entries[i]),
            entry_suffix(vocab, #[trigger] entries[j]),
        )
}

/// The inverted index over these occurrences: one list per vocabulary term.
pub open spec fn indexes_terms(
    terms: Seq<(String, PostingList)>,
    vocab: Seq<String>,
    occ: Seq<(Seq<char>, nat, nat)>,
    b: Seq<FieldBoundary>,
) -> bool {
    &&& terms.len() == vocab.len()
    &&& forall|i: int| 0 <= i < terms.len() ==> {
        &&& (#[trigger] terms[i]).0@ == vocab[i]@
        &&& posting_view(terms[i].1.postings@) == postings_of(vocab[i]@, occ, b)
        &&& terms[i].1.doc_freq == doc_count_of(posting_view(terms[i].1.postings@))
    }
}

/// Build the vocabulary index: tokenize the texts, collect the sorted
/// vocabulary, list each term's occurrences and build the vocabulary
/// suffix array.
pub fn build_fst_index(docs: Vec<SearchDoc>, texts: Vec<String>, field_boundaries: Vec<FieldBoundary>) -> (r: FstIndex)
    ensures
        r.docs@ == docs@,
        r.texts@ == texts@,
        r.field_boundaries@ == field_boundaries@,
        is_vocabulary_of(strings_view(r.vocabulary@), occurrences(strings_view(texts@))),
        r.inverted_index.total_docs == texts@.len(),
        indexes_terms(r.inverted_index.terms@, r.vocabulary@, occurrences(strings_view(texts@)), field_boundaries@),
        is_vocab_suffix_array(r.vocabulary@, r.vocab_suffix_array@),
{
    let occ = all_occurrences(&texts);
    let vocabulary = build_vocabulary(&occ);
    let mut terms: Vec<(String, PostingList)> = Vec::new();
    let mut t: usize = 0;
    while t < vocabulary.len()
        invariant
            t <= vocabulary@.len(),
            terms@.len() == t,
            forall|i: int| 0 <= i < t ==> {
                &&& (#[trigger] terms@[i]).0@ == vocabulary@[i]@
                &&& posting_view(terms@[i].1.postings@) == postings_of(vocabulary@[i]@, occ_view(occ@), field_boundaries@)
                &&& terms@[i].1.doc_freq == doc_count_of(posting_view(terms@[i].1.postings@))
            },
        decreases vocabulary@.len() - t,
    {
        let list = collect_postings(&vocabulary[t], &occ, &field_boundaries);
        terms.push((vocabulary[t].clone(), list));
        t = t + 1;
    }
    let vocab_suffix_array = build_vocab_suffix_array_sais(vocabulary.as_slice());
    let total_docs = texts.len();
    FstIndex {
        docs,
        texts,
        field_boundaries,
        inverted_index: InvertedIndex { terms, total_docs },
        vocabulary,
        vocab_suffix_array,
    }
}

// ============================================================================
// ASSEMBLY INTO A FILE
// ============================================================================

/// The entry a posting becomes: its document, the number of its anchor in
/// the section table, and the heading level and score the ranking gave it.
pub open spec fn spec_entry(p: Posting, table: Seq<String>, ranked: (u8, u32)) -> PostingEntry {
    PostingEntry {
        doc_id: p.doc_id as u32,
        section_idx: section_number(table, p.section_id) as u32,
        heading_level: ranked.0,
        score: ranked.1,
    }
}

/// The posting entries of every term.
pub open spec fn spec_entries(terms: Seq<(String, PostingList)>, table: Seq<String>, ranked: Seq<Vec<(u8, u32)>>) -> Seq<
    Seq<PostingEntry>,
> {
    Seq::new(
        terms.len(),
        |i: int| Seq::new(terms[i].1.postings@.len(), |j: int| spec_entry(terms[i].1.postings@[j], table, ranked[i]@[j])),
    )
}

/// The vocabulary suffix array as (term, offset) pairs of u32.
pub open spec fn spec_sa_pairs(entries: Seq<VocabSuffixEntry>) -> Seq<(u32, u32)> {
    entries.map_values(|e: VocabSuffixEntry| (e.term_idx as u32, e.offset as u32))
}

/// The metadata stored for a document (no anchor of its own).
pub open spec fn spec_doc_input(d: SearchDoc) -> DocFields {
    DocFields {
        title: d.title@,
        excerpt: d.excerpt@,
        href: d.href@,
        doc_type: d.kind@,
        section_id: None,
        category: opt_view(d.category),
        author: opt_view(d.author),
        tags: strings_view(d.tags@),
    }
}

/// `table` is the section table of the boundaries: each anchor some
/// boundary carries, once, in byte order.
pub open spec fn is_section_table_of(table: Seq<String>, b: Seq<FieldBoundary>) -> bool {
    &&& strictly_sorted(table)
    &&& forall|i: int| 0 <= i < table.len() ==> carries_section(b, #[trigger] table[i]@)
    &&& forall|s: Seq<char>| carries_section(b, s) ==> exists|i: int| 0 <= i < table.len() && #[trigger] table[i]@ == s
}

/// The section table of the boundaries is unique.
proof fn lemma_section_tables_agree(t1: Seq<String>, t2: Seq<String>, b: Seq<FieldBoundary>)
    requires
        is_section_table_of(t1, b),
        is_section_table_of(t2, b),
    ensures
        t1.len() == t2.len(),
{
    assert forall|i: int| 0 <= i < t1.len() implies #[trigger] holds_anchor(t2, t1[i]@) by {
        assert(carries_section(b, t1[i]@));
        let j = choose|j: int| 0 <= j < t2.len() && #[trigger] t2[j]@ == t1[i]@;
    }
    assert forall|j: int| 0 <= j < t2.len() implies #[trigger] holds_anchor(t1, t2[j]@) by {
        assert(carries_section(b, t2[j]@));
        let i = choose|i: int| 0 <= i < t1.len() && #[trigger] t1[i]@ == t2[j]@;
    }
    lemma_section_table_determined(t1, t2);
}

/// The file the index assembles into, given its section table.
pub open spec fn assembled_with(
    index: FstIndex,
    ranked: Seq<Vec<(u8, u32)>>,
    table: Seq<String>,
    lev_dfa: Seq<u8>,
    wasm: Seq<u8>,
    bytes: Seq<u8>,
) -> bool {
    exists|l: LayerParts|
        spec_built(
            l,
            strings_view(index.vocabulary@),
            spec_sa_pairs(index.vocab_suffix_array@),
            spec_entries(index.inverted_index.terms@, table, ranked),
            strings_view(table),
            index.docs@.len() as usize,
            lev_dfa,
            spec_encode_docs(index.docs@.map_values(|d: SearchDoc| spec_doc_input(d))),
            wasm,
        ) && bytes == #[trigger] spec_layer_bytes(l)
}

fn copy_strings(v: &Vec<String>) -> (r: Vec<String>)
    ensures
        strings_view(r@) == strings_view(v@),
{
    let mut out: Vec<String> = Vec::new();
    let mut i: usize = 0;
    while i < v.len()
        invariant
            i <= v@.len(),
            strings_view(out@) == strings_view(v@).take(i as int),
        decreases v@.len() - i,
    {
        let ghost before = out@;
        out.push(v[i].clone());
        assert(strings_view(out@) =~= strings_view(before).push(v@[i as int]@));
        assert(strings_view(v@).take(i + 1) =~= strings_view(v@).take(i as int).push(v@[i as int]@));
        i = i + 1;
    }
    assert(strings_view(v@).take(i as int) =~= strings_view(v@));
    out
}

/// Assemble a built index into the bytes of a `.sorex` file. `ranked`
/// gives, for each posting of each term, its heading level and the score
/// the ranking function computed; the Levenshtein automaton and the WASM
/// runtime are stored as given. Fails only when the section table would
/// not fit u32 numbering.
pub fn assemble_index(index: &FstIndex, ranked: &Vec<Vec<(u8, u32)>>, lev_dfa_bytes: Vec<u8>, wasm_bytes: Vec<u8>) -> (r:
    Result<Vec<u8>, FormatError>)
    requires
        ranked@.len() == index.inverted_index.terms@.len(),
        forall|i: int|
            0 <= i < ranked@.len() ==> (#[trigger] ranked@[i])@.len() == index.inverted_index.terms@[i].1.postings@.len(),
    ensures
        match r {
            Ok(b) => exists|table: Seq<String>|
                is_section_table_of(table, index.field_boundaries@) && table.len() < u32::MAX && #[trigger] assembled_with(
                    *index,
                    ranked@,
                    table,
                    lev_dfa_bytes@,
                    wasm_bytes@,
                    b@,
                ),
            Err(e) => e == FormatError::SectionLengthOverflow && forall|table: Seq<String>|
                is_section_table_of(table, index.field_boundaries@) ==> table.len() >= u32::MAX,
        },
{
    let table = build_section_table(index.field_boundaries.as_slice());
    if table.len() >= 0xFFFF_FFFF {
        proof {
            assert forall|t: Seq<String>| is_section_table_of(t, index.field_boundaries@) implies t.len() >= u32::MAX by {
                lemma_section_tables_agree(t, table@, index.field_boundaries@);
            }
        }
        return Err(FormatError::SectionLengthOverflow);
    }
    let terms = &index.inverted_index.terms;
    let mut postings: Vec<Vec<PostingEntry>> = Vec::new();
    let ghost want = spec_entries(terms@, table@, ranked@);
    let mut i: usize = 0;
    while i < terms.len()
        invariant
            i <= terms@.len(),
            terms@ == index.inverted_index.terms@,
            ranked@.len() == terms@.len(),
            forall|k: int| 0 <= k < ranked@.len() ==> (#[trigger] ranked@[k])@.len() == terms@[k].1.postings@.len(),
            table@.len() < u32::MAX,
            want == spec_entries(terms@, table@, ranked@),
            postings@.len() == i,
            forall|k: int| 0 <= k < i ==> (#[trigger] postings@[k])@ == want[k],
        decreases terms@.len() - i,
    {
        let list = &terms[i].1.postings;
        let levels = &ranked[i];
        let mut entries: Vec<PostingEntry> = Vec::new();
        let mut j: usize = 0;
        while j < list.len()
            invariant
                i < terms@.len(),
                list@ == terms@[i as int].1.postings@,
                levels@ == ranked@[i as int]@,
                levels@.len() == list@.len(),
                table@.len() < u32::MAX,
                j <= list@.len(),
                entries@.len() == j,
                forall|q: int| 0 <= q < j ==> #[trigger] entries@[q] == spec_entry(list@[q], table@, levels@[q]),
            decreases list@.len() - j,
        {
            let p = &list[j];
            let (level, score) = levels[j];
            let section_idx = section_index(table.as_slice(), &p.section_id);
            entries.push(PostingEntry { doc_id: p.doc_id as u32, section_idx, heading_level: level, score });
            j = j + 1;
        }
        assert(entries@ =~= want[i as int]);
        postings.push(entries);
        i = i + 1;
    }
    assert(posting_lists_view(postings@) =~= want);

    let mut sa: Vec<(u32, u32)> = Vec::new();
    let mut k: usize = 0;
    while k < index.vocab_suffix_array.len()
        invariant
            k <= index.vocab_suffix_array@.len(),
            sa@ == spec_sa_pairs(index.vocab_suffix_array@).take(k as int),
        decreases index.vocab_suffix_array@.len() - k,
    {
        let e = index.vocab_suffix_array[k];
        sa.push((e.term_idx as u32, e.offset as u32));
        assert(spec_sa_pairs(index.vocab_suffix_array@).take(k + 1) =~= spec_sa_pairs(index.vocab_suffix_array@).take(
            k as int,
        ).push((e.term_idx as u32, e.offset as u32)));
        k = k + 1;
    }
    assert(spec_sa_pairs(index.vocab_suffix_array@).take(k as int) =~= spec_sa_pairs(index.vocab_suffix_array@));

    let mut inputs: Vec<DocMetaInput> = Vec::new();
    let mut d: usize = 0;
    while d < index.docs.len()
        invariant
            d <= index.docs@.len(),
            inputs@.map_values(|x: DocMetaInput| x@) == index.docs@.map_values(|x: SearchDoc| spec_doc_input(x)).take(d as int),
        decreases index.docs@.len() - d,
    {
        let doc = &index.docs[d];
        let input = DocMetaInput {
            title: doc.title.clone(),
            excerpt: doc.excerpt.clone(),
            href: doc.href.clone(),
            doc_type: doc.kind.clone(),
            section_id: None,
            category: copy_anchor(&doc.category),
            author: copy_anchor(&doc.author),
            tags: copy_strings(&doc.tags),
        };
        let ghost before = inputs@;
        inputs.push(input);
        assert(inputs@.map_values(|x: DocMetaInput| x@) =~= before.map_values(|x: DocMetaInput| x@).push(spec_doc_input(*doc)));
        assert(index.docs@.map_values(|x: SearchDoc| spec_doc_input(x)).take(d + 1) =~= index.docs@.map_values(
            |x: SearchDoc| spec_doc_input(x),
        ).take(d as int).push(spec_doc_input(*doc)));
        d = d + 1;
    }
    assert(index.docs@.map_values(|x: SearchDoc| spec_doc_input(x)).take(d as int) =~= index.docs@.map_values(
        |x: SearchDoc| spec_doc_input(x),
    ));
    let docs_bytes = encode_docs_binary(inputs.as_slice());

    let layer = match BinaryLayer::build_v7(
        index.vocabulary.as_slice(),
        sa.as_slice(),
        postings.as_slice(),
        table.as_slice(),
        index.docs.len(),
        lev_dfa_bytes,
        docs_bytes,
        wasm_bytes,
    ) {
        Ok(l) => l,
        Err(e) => return Err(e),
    };
    match layer.to_bytes() {
        Ok(b) => {
            assert(assembled_with(*index, ranked@, table@, lev_dfa_bytes@, wasm_bytes@, b@));
            Ok(b)
        },
        Err(e) => Err(e),
    }
}

} // verus!
