//! Incremental index loader: sections decoded as their bytes arrive.
//!
//! A caller that downloads a `.sorex` file reads the header first, which
//! gives the byte range of every section, and then hands each section's
//! bytes to the loader as soon as they are in. Each section is decoded on
//! its own; `finalize` checks that all of them are there and assembles the
//! loaded layer. The caller decides where the decoding runs (for instance
//! on a worker per section); the loader itself holds no threads.
//!
//! A section whose bytes do not decode is kept empty, and a stream of
//! posting lists or skip lists keeps what decoded before the first fault;
//! `finalize` reports only sections that were never handed over.

use std::collections::HashMap;

use vstd::prelude::*;
use vstd::slice::slice_subrange;

use crate::binary::docs::{decode_docs_binary, docs_view, spec_decode_docs, strings_view, DocFields, DocMeta};
use crate::binary::encoding::{
    decode_section_table, decode_suffix_array, decode_varint_at, decode_vocabulary,
    spec_decode_section_table, spec_decode_suffix_array, spec_decode_varint, spec_parse_vocab,
};
use crate::binary::header::{
    same_header, spec_content_size, spec_read_header, FormatFlags, SectionOffsets, SorexHeader,
    HEADER_SIZE, VERSION,
};
use crate::binary::layer::{spec_parse_layer, LayerParts};
use crate::binary::loaded::{
    lemma_postings_progress, lemma_skip_list_bound, lemma_varint_progress, skip_map_view,
    spec_load_file, spec_load_layer, spec_parse_postings_section, spec_parse_skip_section,
    spec_skip_lists_of, term_index, LoadedLayer, LoadedModel,
};
use crate::binary::postings::{decode_postings, spec_decode_postings, spec_decode_skip_list, PostingEntry, SkipEntry, SkipList};
use crate::error::FormatError;

verus! {

/// Number of sections that need to be loaded (WASM is handled apart)
pub const SECTION_COUNT: u8 = 8;

/// What the loader holds: the header and each decoded section, where they
/// have been loaded, and how many section loads are still awaited.
pub struct LoaderModel {
    pub header: Option<SorexHeader>,
    pub vocabulary: Option<Seq<Seq<char>>>,
    pub dict_tables: Option<Seq<u8>>,
    pub postings: Option<Seq<Seq<PostingEntry>>>,
    pub suffix_array: Option<Seq<(u32, u32)>>,
    pub docs: Option<Seq<DocFields>>,
    pub section_table: Option<Seq<Seq<char>>>,
    pub skip_lists: Option<Map<usize, Seq<Seq<SkipEntry>>>>,
    pub lev_dfa: Option<Seq<u8>>,
    pub pending: u8,
}

/// A loader that has been given nothing.
pub open spec fn fresh_model() -> LoaderModel {
    LoaderModel {
        header: None,
        vocabulary: None,
        dict_tables: None,
        postings: None,
        suffix_array: None,
        docs: None,
        section_table: None,
        skip_lists: None,
        lev_dfa: None,
        pending: SECTION_COUNT,
    }
}

/// The pending count after one more section load; it wraps below zero as
/// an 8-bit counter does.
pub open spec fn count_down(p: u8) -> u8 {
    if p == 0 {
        255
    } else {
        (p - 1) as u8
    }
}

/// What reading the header bytes yields: too few bytes, a bad magic, a
/// version other than this one, and section lengths whose end no `usize`
/// can hold are refused.
pub open spec fn header_result(bytes: Seq<u8>) -> Result<SorexHeader, FormatError> {
    if bytes.len() < 52 {
        Err(FormatError::TruncatedHeader)
    } else {
        match spec_read_header(bytes) {
            Err(e) => Err(e),
            Ok(h) => if h.version != VERSION {
                Err(FormatError::UnsupportedVersion)
            } else if spec_content_size(h) + 8 > usize::MAX {
                Err(FormatError::SectionLengthOverflow)
            } else {
                Ok(h)
            },
        }
    }
}

/// The vocabulary the section's bytes hold for `term_count` terms, or none.
pub open spec fn vocabulary_of(bytes: Seq<u8>, term_count: nat) -> Seq<Seq<char>> {
    match spec_parse_vocab(bytes, 0, Seq::<u8>::empty(), term_count) {
        Ok(v) => v,
        Err(_) => Seq::empty(),
    }
}

/// The posting lists stored from `pos` on, up to the end or to the first
/// one that does not decode.
pub open spec fn postings_until_fault(bytes: Seq<u8>, pos: nat) -> Seq<Seq<PostingEntry>>
    decreases bytes.len() - pos,
{
    if pos >= bytes.len() {
        Seq::empty()
    } else {
        match spec_decode_postings(bytes.subrange(pos as int, bytes.len() as int)) {
            Err(_) => Seq::empty(),
            Ok((pl, c)) => {
                proof {
                    lemma_postings_progress(bytes.subrange(pos as int, bytes.len() as int));
                }
                seq![pl] + postings_until_fault(bytes, pos + c)
            },
        }
    }
}

/// The suffix array the section's bytes hold, or none.
pub open spec fn suffix_array_of(bytes: Seq<u8>) -> Seq<(u32, u32)> {
    match spec_decode_suffix_array(bytes) {
        Ok((sa, _)) => sa,
        Err(_) => Seq::empty(),
    }
}

/// The documents the section's bytes hold, or none.
pub open spec fn docs_of(bytes: Seq<u8>) -> Seq<DocFields> {
    match spec_decode_docs(bytes) {
        Ok(d) => d,
        Err(_) => Seq::empty(),
    }
}

/// The section table the section's bytes hold, or none.
pub open spec fn section_table_of(bytes: Seq<u8>) -> Seq<Seq<char>> {
    if bytes.len() == 0 {
        Seq::empty()
    } else {
        match spec_decode_section_table(bytes) {
            Ok((t, _)) => t,
            Err(_) => Seq::empty(),
        }
    }
}

/// The skip lists stored from `pos` on, each after its term ordinal, added
/// to `acc` up to the end or to the first that does not decode.
pub open spec fn skips_until_fault(bytes: Seq<u8>, pos: nat, acc: Map<usize, Seq<Seq<SkipEntry>>>) -> Map<
    usize,
    Seq<Seq<SkipEntry>>,
>
    decreases bytes.len() - pos,
{
    if pos >= bytes.len() {
        acc
    } else {
        match spec_decode_varint(bytes.subrange(pos as int, bytes.len() as int)) {
            Err(_) => acc,
            Ok((t, c)) => {
                proof {
                    lemma_varint_progress(bytes.subrange(pos as int, bytes.len() as int));
                }
                let p = pos + c;
                if p >= bytes.len() {
                    acc
                } else {
                    match spec_decode_skip_list(bytes.subrange(p as int, bytes.len() as int)) {
                        Err(_) => acc,
                        Ok((levels, c2)) => {
                            proof {
                                lemma_skip_list_bound(bytes.subrange(p as int, bytes.len() as int));
                            }
                            skips_until_fault(bytes, p + c2, acc.insert(#[verifier::truncate] (t as usize), levels))
                        },
                    }
                }
            },
        }
    }
}

/// The skip lists the section's bytes hold, when the flags say there are any.
pub open spec fn skip_lists_of(bytes: Seq<u8>, flags: FormatFlags) -> Map<usize, Seq<Seq<SkipEntry>>> {
    if flags.spec_has_skip_lists() && bytes.len() > 0 {
        skips_until_fault(bytes, 0, Map::empty())
    } else {
        Map::empty()
    }
}

/// The state after reading header bytes: the header, when it reads.
pub open spec fn with_header(m: LoaderModel, bytes: Seq<u8>) -> LoaderModel {
    match header_result(bytes) {
        Ok(h) => LoaderModel { header: Some(h), ..m },
        Err(_) => m,
    }
}

/// The term count the header gives, or 0 before a header.
pub open spec fn term_count_of(m: LoaderModel) -> nat {
    match m.header {
        Some(h) => h.term_count as nat,
        None => 0,
    }
}

/// The state after the vocabulary section arrives.
pub open spec fn with_vocabulary(m: LoaderModel, bytes: Seq<u8>) -> LoaderModel {
    LoaderModel {
        vocabulary: Some(vocabulary_of(bytes, term_count_of(m))),
        pending: count_down(m.pending),
        ..m
    }
}

/// The state after the dict tables section arrives (kept as stored).
pub open spec fn with_dict_tables(m: LoaderModel, bytes: Seq<u8>) -> LoaderModel {
    LoaderModel { dict_tables: Some(bytes), pending: count_down(m.pending), ..m }
}

/// The state after the postings section arrives.
pub open spec fn with_postings(m: LoaderModel, bytes: Seq<u8>) -> LoaderModel {
    LoaderModel { postings: Some(postings_until_fault(bytes, 0)), pending: count_down(m.pending), ..m }
}

/// The state after the suffix array section arrives.
pub open spec fn with_suffix_array(m: LoaderModel, bytes: Seq<u8>) -> LoaderModel {
    LoaderModel { suffix_array: Some(suffix_array_of(bytes)), pending: count_down(m.pending), ..m }
}

/// The state after the docs section arrives.
pub open spec fn with_docs(m: LoaderModel, bytes: Seq<u8>) -> LoaderModel {
    LoaderModel { docs: Some(docs_of(bytes)), pending: count_down(m.pending), ..m }
}

/// The state after the section table arrives.
pub open spec fn with_section_table(m: LoaderModel, bytes: Seq<u8>) -> LoaderModel {
    LoaderModel { section_table: Some(section_table_of(bytes)), pending: count_down(m.pending), ..m }
}

/// The state after the skip lists section arrives.
pub open spec fn with_skip_lists(m: LoaderModel, bytes: Seq<u8>, flags: FormatFlags) -> LoaderModel {
    LoaderModel { skip_lists: Some(skip_lists_of(bytes, flags)), pending: count_down(m.pending), ..m }
}

/// The state after the Levenshtein DFA section arrives (kept as stored).
pub open spec fn with_lev_dfa(m: LoaderModel, bytes: Seq<u8>) -> LoaderModel {
    LoaderModel { lev_dfa: Some(bytes), pending: count_down(m.pending), ..m }
}

/// What finalizing yields: the first section never loaded (in the order
/// header, vocabulary, suffix array, postings, section table, skip lists,
/// Levenshtein DFA, docs, dict tables), a posting list count other than
/// the header's term count, or the loaded layer (without WASM).
pub open spec fn finalized(m: LoaderModel) -> Result<LoadedModel, FormatError> {
    match m.header {
        None => Err(FormatError::HeaderNotLoaded),
        Some(h) => match m.vocabulary {
            None => Err(FormatError::VocabularyNotLoaded),
            Some(vocabulary) => match m.suffix_array {
                None => Err(FormatError::SuffixArrayNotLoaded),
                Some(suffix_array) => match m.postings {
                    None => Err(FormatError::PostingsNotLoaded),
                    Some(postings) => match m.section_table {
                        None => Err(FormatError::SectionTableNotLoaded),
                        Some(section_table) => match m.skip_lists {
                            None => Err(FormatError::SkipListsNotLoaded),
                            Some(skip_lists) => match m.lev_dfa {
                                None => Err(FormatError::LevDfaNotLoaded),
                                Some(lev_dfa) => match m.docs {
                                    None => Err(FormatError::DocsNotLoaded),
                                    Some(docs) => match m.dict_tables {
                                        None => Err(FormatError::DictTablesNotLoaded),
                                        Some(dict_tables) => if postings.len() != h.term_count {
                                            Err(FormatError::TermCountMismatch)
                                        } else {
                                            Ok(
                                                LoadedModel {
                                                    doc_count: h.doc_count,
                                                    vocabulary,
                                                    suffix_array,
                                                    postings,
                                                    section_table,
                                                    skip_lists,
                                                    lev_dfa,
                                                    docs,
                                                    dict_tables,
                                                    wasm: Seq::empty(),
                                                },
                                            )
                                        },
                                    },
                                },
                            },
                        },
                    },
                },
            },
        },
    }
}

/// A section load, by the section's place in the file after the header:
/// 0 vocabulary, 1 dict tables, 2 postings, 3 suffix array, 4 docs,
/// 5 section table, 6 skip lists, 7 Levenshtein DFA.
pub open spec fn load_section(m: LoaderModel, k: nat, bytes: Seq<u8>, flags: FormatFlags) -> LoaderModel {
    if k == 0 {
        with_vocabulary(m, bytes)
    } else if k == 1 {
        with_dict_tables(m, bytes)
    } else if k == 2 {
        with_postings(m, bytes)
    } else if k == 3 {
        with_suffix_array(m, bytes)
    } else if k == 4 {
        with_docs(m, bytes)
    } else if k == 5 {
        with_section_table(m, bytes)
    } else if k == 6 {
        with_skip_lists(m, bytes, flags)
    } else {
        with_lev_dfa(m, bytes)
    }
}

/// Sections may arrive in any order: loading two different sections gives
/// the same state whichever comes first.
pub proof fn lemma_section_loads_commute(
    m: LoaderModel,
    k1: nat,
    b1: Seq<u8>,
    k2: nat,
    b2: Seq<u8>,
    flags: FormatFlags,
)
    requires
        k1 < 8,
        k2 < 8,
        k1 != k2,
    ensures
        load_section(load_section(m, k1, b1, flags), k2, b2, flags) == load_section(
            load_section(m, k2, b2, flags),
            k1,
            b1,
            flags,
        ),
{
}

/// The state after the header of `bytes` is read and every section cut out
/// at the offsets `o` is handed over, in the order the file stores them.
pub open spec fn load_all_sections(bytes: Seq<u8>, o: SectionOffsets) -> LoaderModel {
    let m0 = with_header(fresh_model(), bytes);
    let flags = match m0.header {
        Some(h) => h.flags,
        None => FormatFlags(0),
    };
    let m1 = with_vocabulary(m0, bytes.subrange(o.vocabulary.0 as int, o.vocabulary.1 as int));
    let m2 = with_dict_tables(m1, bytes.subrange(o.dict_tables.0 as int, o.dict_tables.1 as int));
    let m3 = with_postings(m2, bytes.subrange(o.postings.0 as int, o.postings.1 as int));
    let m4 = with_suffix_array(m3, bytes.subrange(o.suffix_array.0 as int, o.suffix_array.1 as int));
    let m5 = with_docs(m4, bytes.subrange(o.docs.0 as int, o.docs.1 as int));
    let m6 = with_section_table(m5, bytes.subrange(o.section_table.0 as int, o.section_table.1 as int));
    let m7 = with_skip_lists(m6, bytes.subrange(o.skip_lists.0 as int, o.skip_lists.1 as int), flags);
    with_lev_dfa(m7, bytes.subrange(o.lev_dfa.0 as int, o.lev_dfa.1 as int))
}

proof fn lemma_postings_until_fault_agrees(bytes: Seq<u8>, pos: nat)
    requires
        spec_parse_postings_section(bytes, pos) is Ok,
    ensures
        postings_until_fault(bytes, pos) == spec_parse_postings_section(bytes, pos)->Ok_0,
    decreases bytes.len() - pos,
{
    if pos < bytes.len() {
        let sub = bytes.subrange(pos as int, bytes.len() as int);
        lemma_postings_progress(sub);
        match spec_decode_postings(sub) {
            Ok((pl, c)) => {
                lemma_postings_until_fault_agrees(bytes, pos + c);
            },
            Err(_) => {},
        }
    }
}

proof fn lemma_skips_until_fault_agrees(bytes: Seq<u8>, pos: nat, acc: Map<usize, Seq<Seq<SkipEntry>>>)
    requires
        spec_parse_skip_section(bytes, pos, acc) is Ok,
    ensures
        skips_until_fault(bytes, pos, acc) == spec_parse_skip_section(bytes, pos, acc)->Ok_0,
    decreases bytes.len() - pos,
{
    if pos < bytes.len() {
        let sub = bytes.subrange(pos as int, bytes.len() as int);
        lemma_varint_progress(sub);
        match spec_decode_varint(sub) {
            Ok((t, c)) => {
                let p = pos + c;
                if p < bytes.len() {
                    let sub2 = bytes.subrange(p as int, bytes.len() as int);
                    lemma_skip_list_bound(sub2);
                    match spec_decode_skip_list(sub2) {
                        Ok((levels, c2)) => {
                            lemma_skips_until_fault_agrees(bytes, p + c2, acc.insert(#[verifier::truncate] (t as usize), levels));
                        },
                        Err(_) => {},
                    }
                }
            },
            Err(_) => {},
        }
    }
}

/// Loading a file section by section gives what loading it whole gives,
/// but for the WASM section, which is handled apart: the header reads,
/// every section load is counted, and finalizing yields the whole-file
/// result, when each section is cut out at the offsets the header yields.
pub proof fn lemma_incremental_matches_whole_file(bytes: Seq<u8>, o: SectionOffsets)
    requires
        spec_load_file(bytes) is Ok,
        o.wf_for(spec_parse_layer(bytes)->Ok_0.header),
    ensures
        header_result(bytes) == Ok::<SorexHeader, FormatError>(spec_parse_layer(bytes)->Ok_0.header),
        load_all_sections(bytes, o).pending == 0,
        finalized(load_all_sections(bytes, o)) == Ok::<LoadedModel, FormatError>(
            (LoadedModel { wasm: Seq::empty(), ..spec_load_file(bytes)->Ok_0 }),
        ),
{
    let p = spec_parse_layer(bytes)->Ok_0;
    let h = p.header;
    assert(spec_read_header(bytes) == Ok::<SorexHeader, FormatError>(h));
    assert(header_result(bytes) == Ok::<SorexHeader, FormatError>(h));
    assert(bytes.subrange(o.vocabulary.0 as int, o.vocabulary.1 as int) == p.vocab);
    assert(bytes.subrange(o.dict_tables.0 as int, o.dict_tables.1 as int) == p.dict_tables);
    assert(bytes.subrange(o.postings.0 as int, o.postings.1 as int) == p.postings);
    assert(bytes.subrange(o.suffix_array.0 as int, o.suffix_array.1 as int) == p.suffix_array);
    assert(bytes.subrange(o.docs.0 as int, o.docs.1 as int) == p.docs);
    assert(bytes.subrange(o.section_table.0 as int, o.section_table.1 as int) == p.section_table);
    assert(bytes.subrange(o.skip_lists.0 as int, o.skip_lists.1 as int) == p.skip_lists);
    assert(bytes.subrange(o.lev_dfa.0 as int, o.lev_dfa.1 as int) == p.lev_dfa);
    assert(spec_load_layer(p) is Ok);
    lemma_postings_until_fault_agrees(p.postings, 0);
    if h.flags.spec_has_skip_lists() && p.skip_lists.len() > 0 {
        lemma_skips_until_fault_agrees(p.skip_lists, 0, Map::empty());
    }
    let whole = spec_load_file(bytes)->Ok_0;
    let m = load_all_sections(bytes, o);
    assert(m.header == Some(h));
    assert(m.postings == Some(whole.postings));
    assert(m.skip_lists == Some(whole.skip_lists));
    assert(m.section_table == Some(whole.section_table));
}

/// Incremental loader that accepts sections as they arrive.
pub struct IncrementalLoader {
    header: Option<SorexHeader>,
    vocabulary: Option<Vec<String>>,
    dict_table_bytes: Option<Vec<u8>>,
    postings: Option<Vec<Vec<PostingEntry>>>,
    suffix_array: Option<Vec<(u32, u32)>>,
    docs: Option<Vec<DocMeta>>,
    section_table: Option<Vec<String>>,
    skip_lists: Option<HashMap<usize, SkipList>>,
    lev_dfa_bytes: Option<Vec<u8>>,
    sections_pending: u8,
}

impl View for IncrementalLoader {
    type V = LoaderModel;

    closed spec fn view(&self) -> LoaderModel {
        LoaderModel {
            header: self.header,
            vocabulary: match self.vocabulary {
                Some(v) => Some(strings_view(v@)),
                None => None,
            },
            dict_tables: match self.dict_table_bytes {
                Some(b) => Some(b@),
                None => None,
            },
            postings: match self.postings {
                Some(p) => Some(p@.map_values(|pl: Vec<PostingEntry>| pl@)),
                None => None,
            },
            suffix_array: match self.suffix_array {
                Some(sa) => Some(sa@),
                None => None,
            },
            docs: match self.docs {
                Some(d) => Some(docs_view(d@)),
                None => None,
            },
            section_table: match self.section_table {
                Some(t) => Some(strings_view(t@)),
                None => None,
            },
            skip_lists: match self.skip_lists {
                Some(s) => Some(skip_map_view(s@)),
                None => None,
            },
            lev_dfa: match self.lev_dfa_bytes {
                Some(b) => Some(b@),
                None => None,
            },
            pending: self.sections_pending,
        }
    }
}

impl Default for IncrementalLoader {
    fn default() -> (r: Self)
        ensures
            r@ == fresh_model(),
    {
        Self::new()
    }
}

impl IncrementalLoader {
    /// Create a new incremental loader.
    pub fn new() -> (r: Self)
        ensures
            r@ == fresh_model(),
    {
        IncrementalLoader {
            header: None,
            vocabulary: None,
            dict_table_bytes: None,
            postings: None,
            suffix_array: None,
            docs: None,
            section_table: None,
            skip_lists: None,
            lev_dfa_bytes: None,
            sections_pending: SECTION_COUNT,
        }
    }

    /// Parse header bytes; returns the section offsets for slicing the
    /// sections out of the file as they arrive.
    pub fn load_header(&mut self, bytes: &[u8]) -> (r: Result<SectionOffsets, FormatError>)
        ensures
            final(self)@ == with_header(old(self)@, bytes@),
            match header_result(bytes@) {
                Ok(h) => r matches Ok(o) && o.wf_for(h),
                Err(e) => r == Err::<SectionOffsets, FormatError>(e),
            },
    {
        if bytes.len() < HEADER_SIZE {
            return Err(FormatError::TruncatedHeader);
        }
        let header = match SorexHeader::read(bytes) {
            Ok(h) => h,
            Err(e) => return Err(e),
        };
        if header.version != VERSION {
            return Err(FormatError::UnsupportedVersion);
        }
        let end: u64 = header.wasm_len as u64 + header.vocab_len as u64 + header.dict_table_len as u64
            + header.postings_len as u64 + header.sa_len as u64 + header.docs_len as u64
            + header.section_table_len as u64 + header.skip_len as u64 + header.lev_dfa_len as u64
            + 60;
        if end > usize::MAX as u64 {
            return Err(FormatError::SectionLengthOverflow);
        }
        let offsets = header.section_offsets();
        self.header = Some(header);
        Ok(offsets)
    }

    /// The parsed header, once `load_header` has succeeded.
    pub fn header(&self) -> (r: Option<&SorexHeader>)
        ensures
            match r {
                Some(h) => self@.header == Some(*h),
                None => self@.header is None,
            },
    {
        self.header.as_ref()
    }

    /// Decode the vocabulary section (the header's term count of terms).
    pub fn load_vocabulary(&mut self, bytes: Vec<u8>)
        ensures
            final(self)@ == with_vocabulary(old(self)@, bytes@),
    {
        let term_count: usize = match &self.header {
            Some(h) => h.term_count as usize,
            None => 0,
        };
        let vocab = match decode_vocabulary(bytes.as_slice(), term_count) {
            Ok(v) => v,
            Err(_) => {
                let none: Vec<String> = Vec::new();
                assert(strings_view(none@) =~= Seq::<Seq<char>>::empty());
                none
            },
        };
        self.vocabulary = Some(vocab);
        self.count_down();
    }

    /// Keep the dict tables section as stored.
    pub fn load_dict_tables(&mut self, bytes: Vec<u8>)
        ensures
            final(self)@ == with_dict_tables(old(self)@, bytes@),
    {
        self.dict_table_bytes = Some(bytes);
        self.count_down();
    }

    /// Decode the suffix array section.
    pub fn load_suffix_array(&mut self, bytes: Vec<u8>)
        ensures
            final(self)@ == with_suffix_array(old(self)@, bytes@),
    {
        let sa = match decode_suffix_array(bytes.as_slice()) {
            Ok((sa, _)) => sa,
            Err(_) => Vec::new(),
        };
        self.suffix_array = Some(sa);
        self.count_down();
    }

    /// Decode the docs section.
    pub fn load_docs(&mut self, bytes: Vec<u8>)
        ensures
            final(self)@ == with_docs(old(self)@, bytes@),
    {
        let docs = match decode_docs_binary(bytes.as_slice()) {
            Ok(d) => d,
            Err(_) => {
                let none: Vec<DocMeta> = Vec::new();
                assert(docs_view(none@) =~= Seq::<DocFields>::empty());
                none
            },
        };
        self.docs = Some(docs);
        self.count_down();
    }

    /// Decode the section table.
    pub fn load_section_table(&mut self, bytes: Vec<u8>)
        ensures
            final(self)@ == with_section_table(old(self)@, bytes@),
    {
        let none: Vec<String> = Vec::new();
        assert(strings_view(none@) =~= Seq::<Seq<char>>::empty());
        let table = if bytes.len() == 0 {
            none
        } else {
            match decode_section_table(bytes.as_slice()) {
                Ok((t, _)) => t,
                Err(_) => none,
            }
        };
        self.section_table = Some(table);
        self.count_down();
    }

    /// Decode the postings section: posting lists one after another, up to
    /// the end or to the first that does not decode. `term_count` is only a
    /// capacity hint.
    pub fn load_postings(&mut self, bytes: Vec<u8>, term_count: u32)
        ensures
            final(self)@ == with_postings(old(self)@, bytes@),
    {
        let mut postings: Vec<Vec<PostingEntry>> = Vec::new();
        let mut pos: usize = 0;
        let ghost total = postings_until_fault(bytes@, 0);
        while pos < bytes.len()
            invariant
                pos <= bytes@.len(),
                total == postings_until_fault(bytes@, 0),
                total == postings@.map_values(|pl: Vec<PostingEntry>| pl@) + postings_until_fault(bytes@, pos as nat),
            ensures
                total == postings@.map_values(|pl: Vec<PostingEntry>| pl@),
            decreases bytes@.len() - pos,
        {
            let ghost sub = bytes@.subrange(pos as int, bytes@.len() as int);
            let (pl, consumed) = match decode_postings(slice_subrange(bytes.as_slice(), pos, bytes.len())) {
                Ok(x) => x,
                Err(_) => {
                    assert(postings_until_fault(bytes@, pos as nat) =~= Seq::<Seq<PostingEntry>>::empty());
                    assert(postings@.map_values(|x: Vec<PostingEntry>| x@) + Seq::<Seq<PostingEntry>>::empty()
                        =~= postings@.map_values(|x: Vec<PostingEntry>| x@));
                    break;
                },
            };
            proof {
                lemma_postings_progress(sub);
            }
            let ghost before = postings@.map_values(|x: Vec<PostingEntry>| x@);
            let ghost plv = pl@;
            postings.push(pl);
            proof {
                assert(postings@.map_values(|x: Vec<PostingEntry>| x@) =~= before.push(plv));
                assert(before + (seq![plv] + postings_until_fault(bytes@, (pos + consumed) as nat))
                    =~= before.push(plv) + postings_until_fault(bytes@, (pos + consumed) as nat));
            }
            pos = pos + consumed;
        }
        self.postings = Some(postings);
        self.count_down();
    }

    /// Decode the skip lists section, when the flags say there are skip
    /// lists: each skip list after its term ordinal, up to the end or to
    /// the first that does not decode.
    pub fn load_skip_lists(&mut self, bytes: Vec<u8>, flags: FormatFlags)
        ensures
            final(self)@ == with_skip_lists(old(self)@, bytes@, flags),
    {
        let mut skip_lists: HashMap<usize, SkipList> = HashMap::new();
        let ghost mut acc: Map<usize, Seq<Seq<SkipEntry>>> = Map::empty();
        assert(skip_map_view(skip_lists@) =~= acc);
        if flags.has_skip_lists() && bytes.len() > 0 {
            let ghost total = skips_until_fault(bytes@, 0, Map::empty());
            let mut pos: usize = 0;
            while pos < bytes.len()
                invariant
                    pos <= bytes@.len(),
                    skip_map_view(skip_lists@) == acc,
                    total == skips_until_fault(bytes@, 0, Map::empty()),
                    total == skips_until_fault(bytes@, pos as nat, acc),
                ensures
                    skip_map_view(skip_lists@) == total,
                decreases bytes@.len() - pos,
            {
                let ghost sub = bytes@.subrange(pos as int, bytes@.len() as int);
                proof {
                    lemma_varint_progress(sub);
                }
                let (term_ord, consumed) = match decode_varint_at(bytes.as_slice(), pos) {
                    Ok(x) => x,
                    Err(_) => {
                        break;
                    },
                };
                let p = pos + consumed;
                if p >= bytes.len() {
                    break;
                }
                let ghost sub2 = bytes@.subrange(p as int, bytes@.len() as int);
                let (skip_list, c2) = match SkipList::decode(slice_subrange(bytes.as_slice(), p, bytes.len())) {
                    Ok(x) => x,
                    Err(_) => {
                        break;
                    },
                };
                proof {
                    lemma_skip_list_bound(sub2);
                }
                let key = term_index(term_ord);
                let ghost lv = skip_list@;
                skip_lists.insert(key, skip_list);
                proof {
                    acc = acc.insert(key, lv);
                    assert(skip_map_view(skip_lists@) =~= acc);
                }
                pos = p + c2;
            }
        }
        self.skip_lists = Some(skip_lists);
        self.count_down();
    }

    /// Keep the Levenshtein DFA section as stored.
    pub fn load_lev_dfa(&mut self, bytes: Vec<u8>)
        ensures
            final(self)@ == with_lev_dfa(old(self)@, bytes@),
    {
        self.lev_dfa_bytes = Some(bytes);
        self.count_down();
    }

    /// Check if all sections are loaded.
    pub fn is_complete(&self) -> (r: bool)
        ensures
            r == (self@.pending == 0),
    {
        self.sections_pending == 0
    }

    /// Get number of sections still pending.
    pub fn pending_count(&self) -> (r: u8)
        ensures
            r == self@.pending,
    {
        self.sections_pending
    }

    /// Build the loaded layer once every section load has been counted.
    pub fn finalize(self) -> (r: Result<LoadedLayer, FormatError>)
        requires
            self@.pending == 0,
        ensures
            match finalized(self@) {
                Ok(m) => r matches Ok(l) && l@ == m && l.doc_count == m.doc_count,
                Err(e) => r == Err::<LoadedLayer, FormatError>(e),
            },
    {
        let ghost model = self@;
        let header = match self.header {
            Some(h) => h,
            None => return Err(FormatError::HeaderNotLoaded),
        };
        let vocabulary = match self.vocabulary {
            Some(v) => v,
            None => return Err(FormatError::VocabularyNotLoaded),
        };
        let suffix_array = match self.suffix_array {
            Some(v) => v,
            None => return Err(FormatError::SuffixArrayNotLoaded),
        };
        let postings = match self.postings {
            Some(v) => v,
            None => return Err(FormatError::PostingsNotLoaded),
        };
        let section_table = match self.section_table {
            Some(v) => v,
            None => return Err(FormatError::SectionTableNotLoaded),
        };
        let skip_lists = match self.skip_lists {
            Some(v) => v,
            None => return Err(FormatError::SkipListsNotLoaded),
        };
        let lev_dfa_bytes = match self.lev_dfa_bytes {
            Some(v) => v,
            None => return Err(FormatError::LevDfaNotLoaded),
        };
        let docs = match self.docs {
            Some(v) => v,
            None => return Err(FormatError::DocsNotLoaded),
        };
        let dict_table_bytes = match self.dict_table_bytes {
            Some(v) => v,
            None => return Err(FormatError::DictTablesNotLoaded),
        };
        if postings.len() != header.term_count as usize {
            return Err(FormatError::TermCountMismatch);
        }
        let layer = LoadedLayer {
            doc_count: header.doc_count as usize,
            vocabulary,
            suffix_array,
            postings,
            section_table,
            skip_lists,
            lev_dfa_bytes,
            docs,
            dict_table_bytes,
            wasm_bytes: Vec::new(),
        };
        assert(layer@.wasm =~= Seq::<u8>::empty());
        Ok(layer)
    }

    fn count_down(&mut self)
        ensures
            final(self)@ == (LoaderModel { pending: count_down(old(self)@.pending), ..old(self)@ }),
    {
        self.sections_pending = if self.sections_pending == 0 {
            255
        } else {
            self.sections_pending - 1
        };
    }
}

} // verus!
