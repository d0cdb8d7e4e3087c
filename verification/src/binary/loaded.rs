//! A layer decoded into searchable structures.

use std::collections::HashMap;

use vstd::prelude::*;
use vstd::slice::slice_subrange;
use vstd::utf8::encode_utf8;

use crate::binary::docs::{decode_docs_binary, docs_view, spec_decode_docs, strings_view, DocFields, DocMeta};
use crate::binary::encoding::{
    decode_section_table, decode_suffix_array, decode_varint_at, decode_vocabulary,
    spec_decode_section_table, spec_decode_suffix_array, spec_decode_varint,
    spec_parse_vocab, varint_terminator,
};
use crate::binary::layer::{same_parts, spec_parse_layer, BinaryLayer, LayerParts};
use crate::binary::postings::{
    decode_postings, spec_decode_postings, spec_decode_skip_list, spec_parse_postings,
    spec_parse_skip_entries, spec_parse_skip_levels,
    PostingEntry, SkipEntry, SkipList,
};
use crate::error::FormatError;
use crate::text::{compare_bytes, lemma_lex_irreflexive, lemma_lex_trans, lex_lt, Comparison};

verus! {

/// The section id that a section index names: 0 names none, `k + 1` the
/// table's entry `k`, and an index past the table none.
pub open spec fn section_at(table: Seq<String>, section_idx: nat) -> Option<Seq<char>> {
    if section_idx == 0 || section_idx > table.len() {
        None
    } else {
        Some(table[section_idx - 1]@)
    }
}

broadcast use vstd::std_specs::hash::group_hash_axioms;

// ============================================================================
// PROGRESS OF THE READERS
// ============================================================================

proof fn lemma_terminator_after(bytes: Seq<u8>, i: nat)
    ensures
        varint_terminator(bytes, i) matches Some(n) ==> i < n <= bytes.len(),
    decreases 10 - i,
{
    if i < 10 && i < bytes.len() && bytes[i as int] >= 128 {
        lemma_terminator_after(bytes, i + 1);
    }
}

/// A varint that decodes occupies at least one byte, and no more than
/// there are.
pub proof fn lemma_varint_progress(bytes: Seq<u8>)
    ensures
        spec_decode_varint(bytes) matches Ok((_, n)) ==> 1 <= n <= bytes.len(),
{
    lemma_terminator_after(bytes, 0);
}

proof fn lemma_parse_postings_after(bytes: Seq<u8>, pos: nat, k: nat, max: u32, prev: u32)
    requires
        pos <= bytes.len(),
    ensures
        spec_parse_postings(bytes, pos, k, max, prev) matches Ok((_, q)) ==> pos <= q <= bytes.len(),
    decreases k,
{
    if k > 0 && pos < bytes.len() {
        lemma_varint_progress(bytes.subrange(pos as int, bytes.len() as int));
        match spec_decode_varint(bytes.subrange(pos as int, bytes.len() as int)) {
            Err(e) => {},
            Ok((doc_id, c1)) => {
                let p1 = pos + c1;
                lemma_varint_progress(bytes.subrange(p1 as int, bytes.len() as int));
                match spec_decode_varint(bytes.subrange(p1 as int, bytes.len() as int)) {
                    Err(e) => {},
                    Ok((section_idx, c2)) => {
                        let p2 = p1 + c2;
                        if p2 < bytes.len() {
                            lemma_varint_progress(bytes.subrange(p2 as int + 1, bytes.len() as int));
                            match spec_decode_varint(bytes.subrange(p2 as int + 1, bytes.len() as int)) {
                                Err(e) => {},
                                Ok((delta, c3)) => {
                                    let t = prev + (delta as u32);
                                    lemma_parse_postings_after(bytes, p2 + 1 + c3, (k - 1) as nat, max, t as u32);
                                },
                            }
                        }
                    },
                }
            },
        }
    }
}

/// A posting list that decodes occupies at least one byte, and no more than
/// there are.
pub proof fn lemma_postings_progress(bytes: Seq<u8>)
    ensures
        spec_decode_postings(bytes) matches Ok((_, n)) ==> 1 <= n <= bytes.len(),
{
    lemma_varint_progress(bytes);
    match spec_decode_varint(bytes) {
        Err(e) => {},
        Ok((doc_freq, p)) => {
            if doc_freq != 0 {
                lemma_varint_progress(bytes.subrange(p as int, bytes.len() as int));
                match spec_decode_varint(bytes.subrange(p as int, bytes.len() as int)) {
                    Err(e) => {},
                    Ok((max, c)) => {
                        lemma_parse_postings_after(bytes, p + c, doc_freq as nat, #[verifier::truncate] (max as u32), 0);
                    },
                }
            }
        },
    }
}

proof fn lemma_skip_entries_bound(bytes: Seq<u8>, pos: nat, k: nat)
    requires
        pos <= bytes.len(),
    ensures
        spec_parse_skip_entries(bytes, pos, k) matches Ok((_, q)) ==> pos <= q <= bytes.len(),
    decreases k,
{
    if k > 0 && pos < bytes.len() {
        lemma_varint_progress(bytes.subrange(pos as int, bytes.len() as int));
        match spec_decode_varint(bytes.subrange(pos as int, bytes.len() as int)) {
            Err(e) => {},
            Ok((doc_id, c1)) => {
                let p1 = pos + c1;
                if p1 < bytes.len() {
                    lemma_varint_progress(bytes.subrange(p1 as int, bytes.len() as int));
                    match spec_decode_varint(bytes.subrange(p1 as int, bytes.len() as int)) {
                        Err(e) => {},
                        Ok((off, c2)) => {
                            lemma_skip_entries_bound(bytes, p1 + c2, (k - 1) as nat);
                        },
                    }
                }
            },
        }
    }
}

proof fn lemma_skip_levels_bound(bytes: Seq<u8>, pos: nat, k: nat)
    requires
        pos <= bytes.len(),
    ensures
        spec_parse_skip_levels(bytes, pos, k) matches Ok((_, q)) ==> pos <= q <= bytes.len(),
    decreases k,
{
    if k > 0 && pos < bytes.len() {
        lemma_varint_progress(bytes.subrange(pos as int, bytes.len() as int));
        match spec_decode_varint(bytes.subrange(pos as int, bytes.len() as int)) {
            Err(e) => {},
            Ok((count, c)) => {
                lemma_skip_entries_bound(bytes, pos + c, count as nat);
                match spec_parse_skip_entries(bytes, pos + c, count as nat) {
                    Err(e) => {},
                    Ok((level, p)) => {
                        lemma_skip_levels_bound(bytes, p, (k - 1) as nat);
                    },
                }
            },
        }
    }
}

/// A skip list that decodes occupies no more bytes than there are.
pub proof fn lemma_skip_list_bound(bytes: Seq<u8>)
    ensures
        spec_decode_skip_list(bytes) matches Ok((_, n)) ==> n <= bytes.len(),
{
    if bytes.len() > 0 && bytes[0] <= 8 {
        lemma_skip_levels_bound(bytes, 1, bytes[0] as nat);
    }
}

// ============================================================================
// SECTION READERS
// ============================================================================

/// The posting lists stored one after another from `pos` to the end.
pub open spec fn spec_parse_postings_section(bytes: Seq<u8>, pos: nat) -> Result<Seq<Seq<PostingEntry>>, FormatError>
    decreases bytes.len() - pos,
{
    if pos >= bytes.len() {
        Ok(Seq::empty())
    } else {
        match spec_decode_postings(bytes.subrange(pos as int, bytes.len() as int)) {
            Err(e) => Err(e),
            Ok((pl, c)) => {
                proof {
                    lemma_postings_progress(bytes.subrange(pos as int, bytes.len() as int));
                }
                match spec_parse_postings_section(bytes, pos + c) {
                    Err(e) => Err(e),
                    Ok(rest) => Ok(seq![pl] + rest),
                }
            },
        }
    }
}

/// The skip lists stored from `pos` to the end, each after its term
/// ordinal, added to `acc` in order (a later one for the same term wins).
pub open spec fn spec_parse_skip_section(bytes: Seq<u8>, pos: nat, acc: Map<usize, Seq<Seq<SkipEntry>>>)
    -> Result<Map<usize, Seq<Seq<SkipEntry>>>, FormatError>
    decreases bytes.len() - pos,
{
    if pos >= bytes.len() {
        Ok(acc)
    } else {
        match spec_decode_varint(bytes.subrange(pos as int, bytes.len() as int)) {
            Err(e) => Err(e),
            Ok((t, c)) => {
                proof {
                    lemma_varint_progress(bytes.subrange(pos as int, bytes.len() as int));
                }
                let p = pos + c;
                if p >= bytes.len() {
                    Err(FormatError::TruncatedSkipListTerm)
                } else {
                    match spec_decode_skip_list(bytes.subrange(p as int, bytes.len() as int)) {
                        Err(e) => Err(e),
                        Ok((levels, c2)) => {
                            proof {
                                lemma_skip_list_bound(bytes.subrange(p as int, bytes.len() as int));
                            }
                            spec_parse_skip_section(bytes, p + c2,
                            acc.insert(#[verifier::truncate] (t as usize), levels))
                        },
                    }
                }
            },
        }
    }
}

/// The decoded contents of a layer.
pub struct LoadedModel {
    pub doc_count: u32,
    pub vocabulary: Seq<Seq<char>>,
    pub suffix_array: Seq<(u32, u32)>,
    pub postings: Seq<Seq<PostingEntry>>,
    pub section_table: Seq<Seq<char>>,
    pub skip_lists: Map<usize, Seq<Seq<SkipEntry>>>,
    pub lev_dfa: Seq<u8>,
    pub docs: Seq<DocFields>,
    pub dict_tables: Seq<u8>,
    pub wasm: Seq<u8>,
}

/// The skip lists present when the header says so, else none.
pub open spec fn spec_skip_lists_of(p: LayerParts) -> Result<Map<usize, Seq<Seq<SkipEntry>>>, FormatError> {
    if p.header.flags.spec_has_skip_lists() {
        spec_parse_skip_section(p.skip_lists, 0, Map::empty())
    } else {
        Ok(Map::empty())
    }
}

/// What decoding the sections of a layer yields, or the first error.
pub open spec fn spec_load_layer(p: LayerParts) -> Result<LoadedModel, FormatError> {
    match spec_parse_vocab(p.vocab, 0, Seq::<u8>::empty(), p.header.term_count as nat) {
        Err(e) => Err(e),
        Ok(vocabulary) => match spec_decode_suffix_array(p.suffix_array) {
            Err(e) => Err(e),
            Ok((suffix_array, _)) => match spec_decode_section_table(p.section_table) {
                Err(e) => Err(e),
                Ok((section_table, _)) => match spec_parse_postings_section(p.postings, 0) {
                    Err(e) => Err(e),
                    Ok(postings) => if postings.len() != p.header.term_count {
                        Err(FormatError::TermCountMismatch)
                    } else {
                        match spec_skip_lists_of(p) {
                            Err(e) => Err(e),
                            Ok(skip_lists) => match spec_decode_docs(p.docs) {
                                Err(e) => Err(e),
                                Ok(docs) => Ok(LoadedModel {
                                    doc_count: p.header.doc_count,
                                    vocabulary,
                                    suffix_array,
                                    postings,
                                    section_table,
                                    skip_lists,
                                    lev_dfa: p.lev_dfa,
                                    docs,
                                    dict_tables: p.dict_tables,
                                    wasm: p.wasm,
                                }),
                            },
                        }
                    },
                },
            },
        },
    }
}

/// What loading a whole file yields.
pub open spec fn spec_load_file(bytes: Seq<u8>) -> Result<LoadedModel, FormatError> {
    match spec_parse_layer(bytes) {
        Err(e) => Err(e),
        Ok(p) => spec_load_layer(p),
    }
}

fn decode_postings_section(bytes: &[u8]) -> (r: Result<Vec<Vec<PostingEntry>>, FormatError>)
    ensures
        match spec_parse_postings_section(bytes@, 0) {
            Ok(pls) => r matches Ok(v) && v@.map_values(|pl: Vec<PostingEntry>| pl@) == pls,
            Err(e) => r == Err::<Vec<Vec<PostingEntry>>, FormatError>(e),
        },
{
    let ghost total = spec_parse_postings_section(bytes@, 0);
    let mut lists: Vec<Vec<PostingEntry>> = Vec::new();
    let mut pos: usize = 0;
    while pos < bytes.len()
        invariant
            pos <= bytes@.len(),
            total == spec_parse_postings_section(bytes@, 0),
            match spec_parse_postings_section(bytes@, pos as nat) {
                Ok(rest) => total == Ok::<Seq<Seq<PostingEntry>>, FormatError>(
                    lists@.map_values(|pl: Vec<PostingEntry>| pl@) + rest),
                Err(e) => total == Err::<Seq<Seq<PostingEntry>>, FormatError>(e),
            },
        decreases bytes@.len() - pos,
    {
        let ghost sub = bytes@.subrange(pos as int, bytes@.len() as int);
        let (pl, consumed) = match decode_postings(slice_subrange(bytes, pos, bytes.len())) {
            Ok(x) => x,
            Err(e) => return Err(e),
        };
        proof {
            lemma_postings_progress(sub);
        }
        let ghost before = lists@.map_values(|x: Vec<PostingEntry>| x@);
        let ghost plv = pl@;
        lists.push(pl);
        proof {
            assert(lists@.map_values(|x: Vec<PostingEntry>| x@) =~= before.push(plv));
            match spec_parse_postings_section(bytes@, (pos + consumed) as nat) {
                Ok(rest) => {
                    assert(before + (seq![plv] + rest) =~= before.push(plv) + rest);
                },
                Err(e) => {},
            }
        }
        pos = pos + consumed;
    }
    assert(lists@.map_values(|x: Vec<PostingEntry>| x@) + Seq::<Seq<PostingEntry>>::empty()
        =~= lists@.map_values(|x: Vec<PostingEntry>| x@));
    Ok(lists)
}

/// The skip lists of a map, each by its levels.
pub open spec fn skip_map_view(m: Map<usize, SkipList>) -> Map<usize, Seq<Seq<SkipEntry>>> {
    m.map_values(|s: SkipList| s@)
}

#[verifier::truncate]
pub(crate) fn term_index(t: u64) -> (r: usize)
    ensures
        r == t as usize,
{
    t as usize
}

fn decode_skip_section(bytes: &[u8]) -> (r: Result<HashMap<usize, SkipList>, FormatError>)
    ensures
        match spec_parse_skip_section(bytes@, 0, Map::empty()) {
            Ok(m) => r matches Ok(h) && skip_map_view(h@) == m,
            Err(e) => r == Err::<HashMap<usize, SkipList>, FormatError>(e),
        },
{
    let mut skip_lists: HashMap<usize, SkipList> = HashMap::new();
    let ghost total = spec_parse_skip_section(bytes@, 0, Map::empty());
    let ghost mut acc: Map<usize, Seq<Seq<SkipEntry>>> = Map::empty();
    assert(skip_map_view(skip_lists@) =~= acc);
    let mut pos: usize = 0;
    while pos < bytes.len()
        invariant
            pos <= bytes@.len(),
            skip_map_view(skip_lists@) == acc,
            total == spec_parse_skip_section(bytes@, 0, Map::empty()),
            total == spec_parse_skip_section(bytes@, pos as nat, acc),
        decreases bytes@.len() - pos,
    {
        let ghost sub = bytes@.subrange(pos as int, bytes@.len() as int);
        proof {
            lemma_varint_progress(sub);
        }
        let (term_ord, consumed) = match decode_varint_at(bytes, pos) {
            Ok(x) => x,
            Err(e) => return Err(e),
        };
        let p = pos + consumed;
        if p >= bytes.len() {
            return Err(FormatError::TruncatedSkipListTerm);
        }
        let ghost sub2 = bytes@.subrange(p as int, bytes@.len() as int);
        let (skip_list, c2) = match SkipList::decode(slice_subrange(bytes, p, bytes.len())) {
            Ok(x) => x,
            Err(e) => return Err(e),
        };
        proof {
            lemma_skip_list_bound(sub2);
        }
        let key = term_index(term_ord);
        let ghost lv = skip_list@;
        skip_lists.insert(key, skip_list);
        proof {
            let old_acc = acc;
            acc = acc.insert(key, lv);
            assert(skip_map_view(skip_lists@) =~= acc);
        }
        pos = p + c2;
    }
    Ok(skip_lists)
}

// ============================================================================
// LOADED LAYER
// ============================================================================

/// Loaded binary layer ready for searching
#[derive(Debug)]
pub struct LoadedLayer {
    pub doc_count: usize,
    pub vocabulary: Vec<String>,
    pub suffix_array: Vec<(u32, u32)>,
    /// Posting lists with section_id indices
    pub postings: Vec<Vec<PostingEntry>>,
    /// Section ID string table
    pub section_table: Vec<String>,
    pub skip_lists: HashMap<usize, SkipList>,
    /// Levenshtein DFA bytes (precomputed parametric automaton)
    pub lev_dfa_bytes: Vec<u8>,
    /// Document metadata (embedded in binary)
    pub docs: Vec<DocMeta>,
    /// Dictionary table section, as stored
    pub dict_table_bytes: Vec<u8>,
    /// Embedded WASM binary
    pub wasm_bytes: Vec<u8>,
}

impl View for LoadedLayer {
    type V = LoadedModel;

    open spec fn view(&self) -> LoadedModel {
        LoadedModel {
            doc_count: self.doc_count as u32,
            vocabulary: strings_view(self.vocabulary@),
            suffix_array: self.suffix_array@,
            postings: self.postings@.map_values(|pl: Vec<PostingEntry>| pl@),
            section_table: strings_view(self.section_table@),
            skip_lists: skip_map_view(self.skip_lists@),
            lev_dfa: self.lev_dfa_bytes@,
            docs: docs_view(self.docs@),
            dict_tables: self.dict_table_bytes@,
            wasm: self.wasm_bytes@,
        }
    }
}

proof fn lemma_load_same(a: LayerParts, b: LayerParts)
    requires
        same_parts(a, b),
    ensures
        spec_load_layer(a) == spec_load_layer(b),
{
}

impl LoadedLayer {
    /// Load from binary bytes: validate the file, then decode every section.
    pub fn from_bytes(bytes: &[u8]) -> (r: Result<Self, FormatError>)
        ensures
            match spec_load_file(bytes@) {
                Ok(m) => r matches Ok(l) && l@ == m && l.doc_count == m.doc_count,
                Err(e) => r == Err::<LoadedLayer, FormatError>(e),
            },
    {
        let layer = match BinaryLayer::from_bytes(bytes) {
            Ok(l) => l,
            Err(e) => return Err(e),
        };
        proof {
            let p = spec_parse_layer(bytes@)->Ok_0;
            lemma_load_same(layer@, p);
        }
        let vocabulary = match decode_vocabulary(layer.vocab_bytes.as_slice(), layer.header.term_count as usize) {
            Ok(v) => v,
            Err(e) => return Err(e),
        };
        let (suffix_array, _) = match decode_suffix_array(layer.sa_bytes.as_slice()) {
            Ok(x) => x,
            Err(e) => return Err(e),
        };
        let (section_table, _) = match decode_section_table(layer.section_table_bytes.as_slice()) {
            Ok(x) => x,
            Err(e) => return Err(e),
        };
        let postings = match decode_postings_section(layer.postings_bytes.as_slice()) {
            Ok(x) => x,
            Err(e) => return Err(e),
        };
        if postings.len() != layer.header.term_count as usize {
            return Err(FormatError::TermCountMismatch);
        }
        let skip_lists = if layer.header.flags.has_skip_lists() {
            match decode_skip_section(layer.skip_bytes.as_slice()) {
                Ok(m) => m,
                Err(e) => return Err(e),
            }
        } else {
            let m: HashMap<usize, SkipList> = HashMap::new();
            assert(skip_map_view(m@) =~= Map::<usize, Seq<Seq<SkipEntry>>>::empty());
            m
        };
        let docs = match decode_docs_binary(layer.docs_bytes.as_slice()) {
            Ok(d) => d,
            Err(e) => return Err(e),
        };
        Ok(LoadedLayer {
            doc_count: layer.header.doc_count as usize,
            vocabulary,
            suffix_array,
            postings,
            section_table,
            skip_lists,
            lev_dfa_bytes: layer.lev_dfa_bytes,
            docs,
            dict_table_bytes: layer.dict_table_bytes,
            wasm_bytes: layer.wasm_bytes,
        })
    }
}

// ============================================================================
// LOOKUPS
// ============================================================================

/// Terms in strictly increasing byte order, as the vocabulary is built.
pub open spec fn vocab_sorted(v: Seq<Seq<char>>) -> bool {
    forall|i: int, j: int| 0 <= i < j < v.len() ==> lex_lt(encode_utf8(v[i]), encode_utf8(v[j]))
}

impl LoadedLayer {
    /// The ordinal of `term` in the vocabulary, by binary search. When the
    /// vocabulary is sorted, a term that is present is found.
    fn find_term(&self, term: &str) -> (r: Option<usize>)
        ensures
            r matches Some(i) ==> i < self.vocabulary@.len() && self.vocabulary@[i as int]@ == term@,
            vocab_sorted(strings_view(self.vocabulary@)) && r is None ==>
                forall|i: int| 0 <= i < self.vocabulary@.len() ==> self.vocabulary@[i]@ != term@,
    {
        let ghost v = strings_view(self.vocabulary@);
        let t = term.as_bytes();
        let mut lo: usize = 0;
        let mut hi: usize = self.vocabulary.len();
        while lo < hi
            invariant
                lo <= hi <= self.vocabulary@.len(),
                v == strings_view(self.vocabulary@),
                t@ == encode_utf8(term@),
                vocab_sorted(v) ==> forall|i: int| 0 <= i < lo ==> lex_lt(encode_utf8(#[trigger] v[i]), t@),
                vocab_sorted(v) ==> forall|i: int| hi <= i < v.len() ==> lex_lt(t@, encode_utf8(#[trigger] v[i])),
            decreases hi - lo,
        {
            let mid = lo + (hi - lo) / 2;
            let cand = self.vocabulary[mid].as_str().as_bytes();
            assert(v[mid as int] == self.vocabulary@[mid as int]@);
            match compare_bytes(cand, t) {
                Comparison::Less => {
                    proof {
                        if vocab_sorted(v) {
                            assert forall|i: int| 0 <= i < mid + 1 implies lex_lt(encode_utf8(#[trigger] v[i]), t@) by {
                                if i < mid {
                                    lemma_lex_trans(encode_utf8(v[i]), encode_utf8(v[mid as int]), t@);
                                }
                            }
                        }
                    }
                    lo = mid + 1;
                },
                Comparison::Greater => {
                    proof {
                        if vocab_sorted(v) {
                            assert forall|i: int| mid <= i < v.len() implies lex_lt(t@, encode_utf8(#[trigger] v[i])) by {
                                if i > mid {
                                    lemma_lex_trans(t@, encode_utf8(v[mid as int]), encode_utf8(v[i]));
                                }
                            }
                        }
                    }
                    hi = mid;
                },
                Comparison::Equal => {
                    proof {
                        vstd::utf8::encode_utf8_decode_utf8(v[mid as int]);
                        vstd::utf8::encode_utf8_decode_utf8(term@);
                    }
                    return Some(mid);
                },
            }
        }
        proof {
            if vocab_sorted(v) {
                assert forall|i: int| 0 <= i < self.vocabulary@.len() implies self.vocabulary@[i]@ != term@ by {
                    assert(v[i] == self.vocabulary@[i]@);
                    if self.vocabulary@[i]@ == term@ {
                        lemma_lex_irreflexive(t@);
                    }
                }
            }
        }
        None
    }

    /// Look up a term and get its posting list (binary search over the
    /// sorted vocabulary).
    pub fn get_postings(&self, term: &str) -> (r: Option<&[PostingEntry]>)
        ensures
            r matches Some(s) ==> exists|i: int| 0 <= i < self.vocabulary@.len() && i < self.postings@.len()
                && #[trigger] self.vocabulary@[i]@ == term@ && s@ == self.postings@[i]@,
            vocab_sorted(strings_view(self.vocabulary@)) ==> (r is Some <==> exists|i: int|
                0 <= i < self.vocabulary@.len() && i < self.postings@.len() && #[trigger] self.vocabulary@[i]@ == term@),
    {
        match self.find_term(term) {
            Some(i) => {
                if i < self.postings.len() {
                    Some(self.postings[i].as_slice())
                } else {
                    proof {
                        if vocab_sorted(strings_view(self.vocabulary@)) {
                            assert forall|j: int| 0 <= j < self.vocabulary@.len() && j < self.postings@.len()
                                implies #[trigger] self.vocabulary@[j]@ != term@ by {
                                if self.vocabulary@[j]@ == term@ {
                                    let v = strings_view(self.vocabulary@);
                                    assert(v[j] == v[i as int]);
                                    if j < i {
                                        assert(lex_lt(encode_utf8(v[j]), encode_utf8(v[i as int])));
                                        lemma_lex_irreflexive(encode_utf8(v[j]));
                                    }
                                }
                            }
                        }
                    }
                    None
                }
            },
            None => None,
        }
    }

    /// Look up a term and get just its doc ids.
    pub fn get_doc_ids(&self, term: &str) -> (r: Option<Vec<u32>>)
        ensures
            r matches Some(ids) ==> exists|i: int| 0 <= i < self.vocabulary@.len() && i < self.postings@.len()
                && #[trigger] self.vocabulary@[i]@ == term@
                && ids@ == self.postings@[i]@.map_values(|e: PostingEntry| e.doc_id),
            vocab_sorted(strings_view(self.vocabulary@)) ==> (r is Some <==> exists|i: int|
                0 <= i < self.vocabulary@.len() && i < self.postings@.len() && #[trigger] self.vocabulary@[i]@ == term@),
    {
        match self.get_postings(term) {
            Some(entries) => {
                let mut ids: Vec<u32> = Vec::new();
                let mut k: usize = 0;
                while k < entries.len()
                    invariant
                        k <= entries@.len(),
                        ids@ == entries@.take(k as int).map_values(|e: PostingEntry| e.doc_id),
                    decreases entries@.len() - k,
                {
                    ids.push(entries[k].doc_id);
                    assert(entries@.take(k as int + 1) =~= entries@.take(k as int).push(entries@[k as int]));
                    assert(entries@.take(k as int + 1).map_values(|e: PostingEntry| e.doc_id)
                        =~= entries@.take(k as int).map_values(|e: PostingEntry| e.doc_id).push(entries@[k as int].doc_id));
                    k = k + 1;
                }
                assert(entries@.take(entries@.len() as int) =~= entries@);
                Some(ids)
            },
            None => None,
        }
    }

    /// Resolve a section index (0 = none, else 1-based into the table).
    pub fn resolve_section_id(&self, section_idx: u32) -> (r: Option<&str>)
        ensures
            r is Some <==> section_at(self.section_table@, section_idx as nat) is Some,
            r matches Some(s) ==> section_at(self.section_table@, section_idx as nat) == Some(s@),
    {
        if section_idx == 0 {
            None
        } else {
            let k = (section_idx - 1) as usize;
            if k < self.section_table.len() {
                Some(self.section_table[k].as_str())
            } else {
                None
            }
        }
    }

    /// Get a term by its ordinal.
    pub fn get_term(&self, ord: usize) -> (r: Option<String>)
        ensures
            r is Some <==> ord < self.vocabulary@.len(),
            r matches Some(s) ==> s@ == self.vocabulary@[ord as int]@,
    {
        if ord < self.vocabulary.len() {
            Some(self.vocabulary[ord].clone())
        } else {
            None
        }
    }
}

} // verus!
