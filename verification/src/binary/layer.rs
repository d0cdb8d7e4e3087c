//! The whole `.sorex` file: header, nine sections and a CRC32 footer.
//!
//! Sections are written in decode-dependency order: WASM, vocabulary, dict
//! tables, postings, suffix array, docs, section table, skip lists and the
//! Levenshtein DFA.

use vstd::prelude::*;
use vstd::slice::slice_subrange;

use crate::binary::docs::strings_view;
use crate::binary::encoding::{
    append_bytes, encode_section_table, encode_suffix_array, encode_varint, encode_vocabulary,
    spec_encode_section_table, spec_encode_suffix_array, spec_encode_vocabulary, spec_varint,
};
use crate::binary::header::{
    crc32_of, lemma_footer_roundtrip, lemma_header_bytes_len, lemma_header_roundtrip, same_header, spec_header_at, spec_content_size,
    spec_footer_bytes, spec_header_bytes, spec_read_footer, spec_read_header, FormatFlags,
    SorexFooter, SorexHeader, FOOTER_SIZE, HEADER_SIZE, MAX_DOC_COUNT, MAX_FILE_SIZE,
    MAX_TERM_COUNT, VERSION,
};
use crate::binary::postings::{
    encode_postings, spec_build_skip_list, spec_encode_postings, spec_encode_skip_list,
    PostingEntry, SkipList,
};
use crate::error::FormatError;

verus! {

/// The header and the nine section byte strings of a layer.
pub struct LayerParts {
    pub header: SorexHeader,
    pub wasm: Seq<u8>,
    pub vocab: Seq<u8>,
    pub dict_tables: Seq<u8>,
    pub postings: Seq<u8>,
    pub suffix_array: Seq<u8>,
    pub docs: Seq<u8>,
    pub section_table: Seq<u8>,
    pub skip_lists: Seq<u8>,
    pub lev_dfa: Seq<u8>,
}

/// Whether two layers hold the same header values and the same sections.
pub open spec fn same_parts(a: LayerParts, b: LayerParts) -> bool {
    &&& same_header(a.header, b.header)
    &&& a.wasm == b.wasm
    &&& a.vocab == b.vocab
    &&& a.dict_tables == b.dict_tables
    &&& a.postings == b.postings
    &&& a.suffix_array == b.suffix_array
    &&& a.docs == b.docs
    &&& a.section_table == b.section_table
    &&& a.skip_lists == b.skip_lists
    &&& a.lev_dfa == b.lev_dfa
}

/// A complete binary layer
#[derive(Debug)]
pub struct BinaryLayer {
    pub header: SorexHeader,
    pub vocab_bytes: Vec<u8>,
    pub sa_bytes: Vec<u8>,
    pub postings_bytes: Vec<u8>,
    pub skip_bytes: Vec<u8>,
    /// Section ID string table bytes (deduplicated section_ids for deep linking)
    pub section_table_bytes: Vec<u8>,
    /// Levenshtein DFA bytes (precomputed parametric automaton)
    pub lev_dfa_bytes: Vec<u8>,
    /// Docs binary section (length-prefixed strings, 1-bit type)
    pub docs_bytes: Vec<u8>,
    /// WASM binary (embedded WebAssembly for a self-contained runtime)
    pub wasm_bytes: Vec<u8>,
    /// Dictionary tables (category, author, tags, href prefix)
    pub dict_table_bytes: Vec<u8>,
}

impl View for BinaryLayer {
    type V = LayerParts;

    open spec fn view(&self) -> LayerParts {
        LayerParts {
            header: self.header,
            wasm: self.wasm_bytes@,
            vocab: self.vocab_bytes@,
            dict_tables: self.dict_table_bytes@,
            postings: self.postings_bytes@,
            suffix_array: self.sa_bytes@,
            docs: self.docs_bytes@,
            section_table: self.section_table_bytes@,
            skip_lists: self.skip_bytes@,
            lev_dfa: self.lev_dfa_bytes@,
        }
    }
}

// ============================================================================
// BUILDING
// ============================================================================

/// The entries of each posting list.
pub open spec fn posting_lists_view(v: Seq<Vec<PostingEntry>>) -> Seq<Seq<PostingEntry>> {
    v.map_values(|pl: Vec<PostingEntry>| pl@)
}

/// The doc ids of a posting list, in order.
pub open spec fn spec_doc_ids(pl: Seq<PostingEntry>) -> Seq<u32> {
    pl.map_values(|e: PostingEntry| e.doc_id)
}

/// The postings section: each list encoded, one after another.
pub open spec fn spec_postings_section(pls: Seq<Seq<PostingEntry>>) -> Seq<u8>
    decreases pls.len(),
{
    if pls.len() == 0 {
        Seq::empty()
    } else {
        spec_postings_section(pls.drop_last()) + spec_encode_postings(pls.last())
    }
}

/// The skip-list entry for term `i`: nothing when the list is too short for
/// a skip list, else the term ordinal followed by the encoded skip list.
pub open spec fn spec_skip_entry(i: int, pl: Seq<PostingEntry>) -> Seq<u8> {
    match spec_build_skip_list(spec_doc_ids(pl)) {
        None => Seq::empty(),
        Some(levels) => spec_varint(i as u64) + spec_encode_skip_list(levels),
    }
}

/// The skip-list section for the first `k` posting lists.
pub open spec fn spec_skip_section(pls: Seq<Seq<PostingEntry>>, k: nat) -> Seq<u8>
    decreases k,
{
    if k == 0 {
        Seq::empty()
    } else {
        spec_skip_section(pls, (k - 1) as nat) + spec_skip_entry(k - 1, pls[k - 1])
    }
}

/// What `build_v7` makes of its inputs.
pub open spec fn spec_built(
    l: LayerParts,
    vocabulary: Seq<Seq<char>>,
    suffix_array: Seq<(u32, u32)>,
    postings: Seq<Seq<PostingEntry>>,
    section_table: Seq<Seq<char>>,
    doc_count: usize,
    lev_dfa: Seq<u8>,
    docs: Seq<u8>,
    wasm: Seq<u8>,
) -> bool {
    &&& l.vocab == spec_encode_vocabulary(vocabulary)
    &&& l.suffix_array == spec_encode_suffix_array(suffix_array)
    &&& l.postings == spec_postings_section(postings)
    &&& l.skip_lists == spec_skip_section(postings, postings.len())
    &&& l.section_table == spec_encode_section_table(section_table)
    &&& l.lev_dfa == lev_dfa
    &&& l.docs == docs
    &&& l.wasm == wasm
    &&& l.dict_tables == Seq::<u8>::empty()
    &&& l.header.version == VERSION
    &&& l.header.flags.0 == (if l.skip_lists.len() > 0 { 1u8 } else { 0u8 })
    &&& l.header.doc_count == doc_count as u32
    &&& l.header.term_count == vocabulary.len() as u32
    &&& l.header.vocab_len == l.vocab.len() as u32
    &&& l.header.sa_len == l.suffix_array.len() as u32
    &&& l.header.postings_len == l.postings.len() as u32
    &&& l.header.skip_len == l.skip_lists.len() as u32
    &&& l.header.section_table_len == l.section_table.len() as u32
    &&& l.header.lev_dfa_len == l.lev_dfa.len() as u32
    &&& l.header.docs_len == l.docs.len() as u32
    &&& l.header.wasm_len == l.wasm.len() as u32
    &&& l.header.dict_table_len == 0
}

fn collect_doc_ids(pl: &Vec<PostingEntry>) -> (r: Vec<u32>)
    ensures
        r@ == spec_doc_ids(pl@),
{
    let mut out: Vec<u32> = Vec::new();
    let mut i: usize = 0;
    while i < pl.len()
        invariant
            i <= pl@.len(),
            out@ == spec_doc_ids(pl@.take(i as int)),
        decreases pl@.len() - i,
    {
        out.push(pl[i].doc_id);
        assert(pl@.take(i as int + 1) =~= pl@.take(i as int).push(pl@[i as int]));
        assert(spec_doc_ids(pl@.take(i as int + 1)) =~= spec_doc_ids(pl@.take(i as int)).push(pl@[i as int].doc_id));
        i = i + 1;
    }
    assert(pl@.take(pl@.len() as int) =~= pl@);
    out
}

#[verifier::truncate]
fn len_u32(n: usize) -> (r: u32)
    ensures
        r == n as u32,
{
    n as u32
}

impl BinaryLayer {
    /// Build a binary layer (v12 format): front-compressed vocabulary,
    /// delta+varint postings, separated suffix array streams, skip lists for
    /// long posting lists, WASM first.
    #[allow(clippy::too_many_arguments)]
    pub fn build_v7(
        vocabulary: &[String],
        suffix_array: &[(u32, u32)],
        postings: &[Vec<PostingEntry>],
        section_table: &[String],
        doc_count: usize,
        lev_dfa_bytes: Vec<u8>,
        docs_bytes: Vec<u8>,
        wasm_bytes: Vec<u8>,
    ) -> (r: Result<Self, FormatError>)
        ensures
            r matches Ok(l) && spec_built(l@, strings_view(vocabulary@), suffix_array@,
                posting_lists_view(postings@), strings_view(section_table@), doc_count,
                lev_dfa_bytes@, docs_bytes@, wasm_bytes@),
    {
        let ghost pls = posting_lists_view(postings@);
        let mut vocab_bytes: Vec<u8> = Vec::new();
        encode_vocabulary(vocabulary, &mut vocab_bytes);
        let mut sa_bytes: Vec<u8> = Vec::new();
        encode_suffix_array(suffix_array, &mut sa_bytes);

        let mut postings_bytes: Vec<u8> = Vec::new();
        let mut i: usize = 0;
        while i < postings.len()
            invariant
                i <= postings@.len(),
                pls == posting_lists_view(postings@),
                postings_bytes@ == spec_postings_section(pls.take(i as int)),
            decreases postings@.len() - i,
        {
            let pl = postings[i].as_slice();
            let n = pl.len();
            assert(n <= u64::MAX);
            encode_postings(pl, &mut postings_bytes);
            assert(pls.take(i as int + 1).drop_last() =~= pls.take(i as int));
            i = i + 1;
        }
        assert(pls.take(pls.len() as int) =~= pls);

        let mut skip_bytes: Vec<u8> = Vec::new();
        let mut has_skip_lists = false;
        let mut term_ord: usize = 0;
        while term_ord < postings.len()
            invariant
                term_ord <= postings@.len(),
                pls == posting_lists_view(postings@),
                skip_bytes@ == spec_skip_section(pls, term_ord as nat),
                has_skip_lists == (skip_bytes@.len() > 0),
            decreases postings@.len() - term_ord,
        {
            let doc_ids = collect_doc_ids(&postings[term_ord]);
            match SkipList::build(doc_ids.as_slice()) {
                Some(skip_list) => {
                    has_skip_lists = true;
                    encode_varint(term_ord as u64, &mut skip_bytes);
                    skip_list.encode(&mut skip_bytes);
                    assert(skip_bytes@ =~= spec_skip_section(pls, term_ord as nat)
                        + spec_skip_entry(term_ord as int, pls[term_ord as int]));
                },
                None => {
                    assert(skip_bytes@ =~= spec_skip_section(pls, term_ord as nat)
                        + spec_skip_entry(term_ord as int, pls[term_ord as int]));
                },
            }
            term_ord = term_ord + 1;
        }

        let mut section_table_bytes: Vec<u8> = Vec::new();
        encode_section_table(section_table, &mut section_table_bytes);

        assert(0u8 | 1u8 == 1u8) by (bit_vector);
        let flags = if has_skip_lists {
            FormatFlags::new().with_skip_lists()
        } else {
            FormatFlags::new()
        };

        let header = SorexHeader {
            version: VERSION,
            flags,
            doc_count: len_u32(doc_count),
            term_count: len_u32(vocabulary.len()),
            vocab_len: len_u32(vocab_bytes.len()),
            sa_len: len_u32(sa_bytes.len()),
            postings_len: len_u32(postings_bytes.len()),
            skip_len: len_u32(skip_bytes.len()),
            section_table_len: len_u32(section_table_bytes.len()),
            lev_dfa_len: len_u32(lev_dfa_bytes.len()),
            docs_len: len_u32(docs_bytes.len()),
            wasm_len: len_u32(wasm_bytes.len()),
            dict_table_len: 0,
        };

        Ok(Self {
            header,
            vocab_bytes,
            sa_bytes,
            postings_bytes,
            skip_bytes,
            section_table_bytes,
            lev_dfa_bytes,
            docs_bytes,
            wasm_bytes,
            dict_table_bytes: Vec::new(),
        })
    }

    /// Build a binary layer with section ids and no WASM.
    pub fn build_v6(
        vocabulary: &[String],
        suffix_array: &[(u32, u32)],
        postings: &[Vec<PostingEntry>],
        section_table: &[String],
        doc_count: usize,
        lev_dfa_bytes: Vec<u8>,
        docs_bytes: Vec<u8>,
    ) -> (r: Result<Self, FormatError>)
        ensures
            r matches Ok(l) && spec_built(l@, strings_view(vocabulary@), suffix_array@,
                posting_lists_view(postings@), strings_view(section_table@), doc_count,
                lev_dfa_bytes@, docs_bytes@, Seq::<u8>::empty()),
    {
        let wasm: Vec<u8> = Vec::new();
        Self::build_v7(vocabulary, suffix_array, postings, section_table, doc_count,
            lev_dfa_bytes, docs_bytes, wasm)
    }

    /// Build a binary layer from plain doc-id posting lists: no section ids,
    /// heading levels or scores.
    pub fn build(
        vocabulary: &[String],
        suffix_array: &[(u32, u32)],
        postings: &[Vec<u32>],
        doc_count: usize,
        lev_dfa_bytes: Vec<u8>,
        docs_bytes: Vec<u8>,
    ) -> (r: Result<Self, FormatError>)
        ensures
            r matches Ok(l) && spec_built(l@, strings_view(vocabulary@), suffix_array@,
                spec_plain_postings(postings@), Seq::<Seq<char>>::empty(), doc_count,
                lev_dfa_bytes@, docs_bytes@, Seq::<u8>::empty()),
    {
        let mut lists: Vec<Vec<PostingEntry>> = Vec::new();
        let mut i: usize = 0;
        while i < postings.len()
            invariant
                i <= postings@.len(),
                posting_lists_view(lists@) == spec_plain_postings(postings@.take(i as int)),
            decreases postings@.len() - i,
        {
            let pl = &postings[i];
            let mut entries: Vec<PostingEntry> = Vec::new();
            let mut j: usize = 0;
            while j < pl.len()
                invariant
                    j <= pl@.len(),
                    entries@ == spec_plain_entries(pl@.take(j as int)),
                decreases pl@.len() - j,
            {
                entries.push(PostingEntry { doc_id: pl[j], section_idx: 0, heading_level: 0, score: 0 });
                assert(pl@.take(j as int + 1) =~= pl@.take(j as int).push(pl@[j as int]));
                assert(spec_plain_entries(pl@.take(j as int + 1)) =~= spec_plain_entries(pl@.take(j as int)).push(
                    PostingEntry { doc_id: pl@[j as int], section_idx: 0, heading_level: 0, score: 0 }));
                j = j + 1;
            }
            assert(pl@.take(pl@.len() as int) =~= pl@);
            let ghost before = posting_lists_view(lists@);
            lists.push(entries);
            assert(postings@.take(i as int + 1) =~= postings@.take(i as int).push(postings@[i as int]));
            assert(posting_lists_view(lists@) =~= before.push(spec_plain_entries(postings@[i as int]@)));
            assert(spec_plain_postings(postings@.take(i as int + 1)) =~= spec_plain_postings(postings@.take(i as int)).push(
                spec_plain_entries(postings@[i as int]@)));
            i = i + 1;
        }
        assert(postings@.take(postings@.len() as int) =~= postings@);
        let empty: Vec<String> = Vec::new();
        assert(strings_view(empty@) =~= Seq::<Seq<char>>::empty());
        Self::build_v6(vocabulary, suffix_array, lists.as_slice(), empty.as_slice(), doc_count,
            lev_dfa_bytes, docs_bytes)
    }
}

/// Doc ids as entries with no section id, heading level 0 and score 0.
pub open spec fn spec_plain_entries(ids: Seq<u32>) -> Seq<PostingEntry> {
    ids.map_values(|d: u32| PostingEntry { doc_id: d, section_idx: 0, heading_level: 0, score: 0 })
}

/// Each doc-id list as plain entries.
pub open spec fn spec_plain_postings(v: Seq<Vec<u32>>) -> Seq<Seq<PostingEntry>> {
    v.map_values(|pl: Vec<u32>| spec_plain_entries(pl@))
}

// ============================================================================
// SERIALIZATION
// ============================================================================

/// Header and sections, in file order, without the footer.
pub open spec fn spec_layer_content(p: LayerParts) -> Seq<u8> {
    spec_header_bytes(p.header) + p.wasm + p.vocab + p.dict_tables + p.postings + p.suffix_array
        + p.docs + p.section_table + p.skip_lists + p.lev_dfa
}

/// The file: content, then a footer holding the content's CRC32.
pub open spec fn spec_layer_bytes(p: LayerParts) -> Seq<u8> {
    spec_layer_content(p) + spec_footer_bytes(SorexFooter { crc32: crc32_of(spec_layer_content(p)) })
}

/// The sections that the header `h` lays out in `bytes`.
pub open spec fn spec_sections_of(bytes: Seq<u8>, h: SorexHeader) -> LayerParts {
    let o1 = 52 + h.wasm_len;
    let o2 = o1 + h.vocab_len;
    let o3 = o2 + h.dict_table_len;
    let o4 = o3 + h.postings_len;
    let o5 = o4 + h.sa_len;
    let o6 = o5 + h.docs_len;
    let o7 = o6 + h.section_table_len;
    let o8 = o7 + h.skip_len;
    let o9 = o8 + h.lev_dfa_len;
    LayerParts {
        header: h,
        wasm: bytes.subrange(52, o1),
        vocab: bytes.subrange(o1, o2),
        dict_tables: bytes.subrange(o2, o3),
        postings: bytes.subrange(o3, o4),
        suffix_array: bytes.subrange(o4, o5),
        docs: bytes.subrange(o5, o6),
        section_table: bytes.subrange(o6, o7),
        skip_lists: bytes.subrange(o7, o8),
        lev_dfa: bytes.subrange(o8, o9),
    }
}

/// What reading a file yields: its sections, or the first check it fails.
pub open spec fn spec_parse_layer(bytes: Seq<u8>) -> Result<LayerParts, FormatError> {
    if bytes.len() > MAX_FILE_SIZE {
        Err(FormatError::FileTooLarge)
    } else if bytes.len() < 60 {
        Err(FormatError::FileTooSmall)
    } else {
        match spec_read_footer(bytes) {
            Err(e) => Err(e),
            Ok(f) => if f.crc32 != crc32_of(bytes.subrange(0, bytes.len() - 8)) {
                Err(FormatError::CrcMismatch)
            } else {
                match spec_read_header(bytes) {
                    Err(e) => Err(e),
                    Ok(h) => if h.version != VERSION {
                        Err(FormatError::UnsupportedVersion)
                    } else if h.doc_count > MAX_DOC_COUNT {
                        Err(FormatError::TooManyDocuments)
                    } else if h.term_count > MAX_TERM_COUNT {
                        Err(FormatError::TooManyTerms)
                    } else if spec_content_size(h) != bytes.len() - 8 {
                        Err(FormatError::SectionLengthMismatch)
                    } else {
                        Ok(spec_sections_of(bytes, h))
                    },
                }
            },
        }
    }
}

fn copy_bytes(src: &[u8]) -> (r: Vec<u8>)
    ensures
        r@ == src@,
{
    let mut out: Vec<u8> = Vec::new();
    append_bytes(&mut out, src);
    out
}

impl BinaryLayer {
    /// Serialize to bytes: header, sections in decode order, CRC32 footer.
    pub fn to_bytes(&self) -> (r: Result<Vec<u8>, FormatError>)
        ensures
            r matches Ok(b) && b@ == spec_layer_bytes(self@),
    {
        let mut buf: Vec<u8> = Vec::new();
        self.header.write(&mut buf);
        append_bytes(&mut buf, self.wasm_bytes.as_slice());
        append_bytes(&mut buf, self.vocab_bytes.as_slice());
        append_bytes(&mut buf, self.dict_table_bytes.as_slice());
        append_bytes(&mut buf, self.postings_bytes.as_slice());
        append_bytes(&mut buf, self.sa_bytes.as_slice());
        append_bytes(&mut buf, self.docs_bytes.as_slice());
        append_bytes(&mut buf, self.section_table_bytes.as_slice());
        append_bytes(&mut buf, self.skip_bytes.as_slice());
        append_bytes(&mut buf, self.lev_dfa_bytes.as_slice());
        assert(buf@ == spec_layer_content(self@));
        let crc32 = SorexFooter::compute_crc32(buf.as_slice());
        let footer = SorexFooter { crc32 };
        footer.write(&mut buf);
        Ok(buf)
    }

    /// Deserialize from bytes, checking size limits, the footer magic, the
    /// CRC32, the header magic and version, the count limits and that the
    /// section lengths add up to the file.
    pub fn from_bytes(bytes: &[u8]) -> (r: Result<Self, FormatError>)
        ensures
            match spec_parse_layer(bytes@) {
                Ok(p) => r matches Ok(l) && same_parts(l@, p),
                Err(e) => r == Err::<BinaryLayer, FormatError>(e),
            },
    {
        let n = bytes.len();
        if n > MAX_FILE_SIZE {
            return Err(FormatError::FileTooLarge);
        }
        if n < HEADER_SIZE + FOOTER_SIZE {
            return Err(FormatError::FileTooSmall);
        }
        let footer = match SorexFooter::read(bytes) {
            Ok(f) => f,
            Err(e) => return Err(e),
        };
        let content = slice_subrange(bytes, 0, n - FOOTER_SIZE);
        let computed_crc32 = SorexFooter::compute_crc32(content);
        if footer.crc32 != computed_crc32 {
            return Err(FormatError::CrcMismatch);
        }
        let header = match SorexHeader::read(bytes) {
            Ok(h) => h,
            Err(e) => return Err(e),
        };
        if header.version != VERSION {
            return Err(FormatError::UnsupportedVersion);
        }
        if header.doc_count > MAX_DOC_COUNT {
            return Err(FormatError::TooManyDocuments);
        }
        if header.term_count > MAX_TERM_COUNT {
            return Err(FormatError::TooManyTerms);
        }
        let expected: u64 = 52u64 + header.wasm_len as u64 + header.vocab_len as u64
            + header.dict_table_len as u64 + header.postings_len as u64 + header.sa_len as u64
            + header.docs_len as u64 + header.section_table_len as u64 + header.skip_len as u64
            + header.lev_dfa_len as u64;
        if expected != (n - FOOTER_SIZE) as u64 {
            return Err(FormatError::SectionLengthMismatch);
        }
        let o = header.section_offsets();
        let wasm_bytes = copy_bytes(slice_subrange(bytes, o.wasm.0, o.wasm.1));
        let vocab_bytes = copy_bytes(slice_subrange(bytes, o.vocabulary.0, o.vocabulary.1));
        let dict_table_bytes = copy_bytes(slice_subrange(bytes, o.dict_tables.0, o.dict_tables.1));
        let postings_bytes = copy_bytes(slice_subrange(bytes, o.postings.0, o.postings.1));
        let sa_bytes = copy_bytes(slice_subrange(bytes, o.suffix_array.0, o.suffix_array.1));
        let docs_bytes = copy_bytes(slice_subrange(bytes, o.docs.0, o.docs.1));
        let section_table_bytes = copy_bytes(slice_subrange(bytes, o.section_table.0, o.section_table.1));
        let skip_bytes = copy_bytes(slice_subrange(bytes, o.skip_lists.0, o.skip_lists.1));
        let lev_dfa_bytes = copy_bytes(slice_subrange(bytes, o.lev_dfa.0, o.lev_dfa.1));
        Ok(Self {
            header,
            vocab_bytes,
            sa_bytes,
            postings_bytes,
            skip_bytes,
            section_table_bytes,
            lev_dfa_bytes,
            docs_bytes,
            wasm_bytes,
            dict_table_bytes,
        })
    }
}

// ============================================================================
// ROUNDTRIP
// ============================================================================

/// A layer whose header is supported, within the count limits, and gives
/// each section's true length.
pub open spec fn spec_layer_consistent(p: LayerParts) -> bool {
    &&& p.header.version == VERSION
    &&& p.header.doc_count <= MAX_DOC_COUNT
    &&& p.header.term_count <= MAX_TERM_COUNT
    &&& p.header.wasm_len == p.wasm.len()
    &&& p.header.vocab_len == p.vocab.len()
    &&& p.header.dict_table_len == p.dict_tables.len()
    &&& p.header.postings_len == p.postings.len()
    &&& p.header.sa_len == p.suffix_array.len()
    &&& p.header.docs_len == p.docs.len()
    &&& p.header.section_table_len == p.section_table.len()
    &&& p.header.skip_len == p.skip_lists.len()
    &&& p.header.lev_dfa_len == p.lev_dfa.len()
}

proof fn lemma_piece(b: Seq<u8>, prefix: Seq<u8>, x: Seq<u8>)
    requires
        prefix.len() + x.len() <= b.len(),
        forall|m: int| 0 <= m < prefix.len() + x.len() ==> b[m] == (prefix + x)[m],
    ensures
        b.subrange(prefix.len() as int, prefix.len() as int + x.len()) == x,
{
    assert forall|m: int| 0 <= m < x.len() implies #[trigger] b.subrange(prefix.len() as int, prefix.len() as int + x.len())[m] == x[m] by {
        assert(b[prefix.len() + m] == (prefix + x)[prefix.len() + m]);
    }
    assert(b.subrange(prefix.len() as int, prefix.len() as int + x.len()) =~= x);
}

proof fn lemma_layer_pieces(p: LayerParts)
    ensures
        ({
            let b = spec_layer_bytes(p);
            let o1: int = 52int + p.wasm.len();
            let o2: int = o1 + p.vocab.len();
            let o3: int = o2 + p.dict_tables.len();
            let o4: int = o3 + p.postings.len();
            let o5: int = o4 + p.suffix_array.len();
            let o6: int = o5 + p.docs.len();
            let o7: int = o6 + p.section_table.len();
            let o8: int = o7 + p.skip_lists.len();
            let o9: int = o8 + p.lev_dfa.len();
            &&& b.len() == o9 + 8
            &&& b.subrange(52, o1) == p.wasm
            &&& b.subrange(o1, o2) == p.vocab
            &&& b.subrange(o2, o3) == p.dict_tables
            &&& b.subrange(o3, o4) == p.postings
            &&& b.subrange(o4, o5) == p.suffix_array
            &&& b.subrange(o5, o6) == p.docs
            &&& b.subrange(o6, o7) == p.section_table
            &&& b.subrange(o7, o8) == p.skip_lists
            &&& b.subrange(o8, o9) == p.lev_dfa
        }),
{
    let h = p.header;
    let c0 = spec_header_bytes(h);
    let c1 = c0 + p.wasm;
    let c2 = c1 + p.vocab;
    let c3 = c2 + p.dict_tables;
    let c4 = c3 + p.postings;
    let c5 = c4 + p.suffix_array;
    let c6 = c5 + p.docs;
    let c7 = c6 + p.section_table;
    let c8 = c7 + p.skip_lists;
    let c = c8 + p.lev_dfa;
    assert(c == spec_layer_content(p));
    let b = spec_layer_bytes(p);
    lemma_header_bytes_len(h);
    assert forall|m: int| 0 <= m < c.len() implies b[m] == #[trigger] c[m] by {}
    assert forall|m: int| 0 <= m < c8.len() implies b[m] == #[trigger] c8[m] by { assert(c[m] == c8[m]); }
    assert forall|m: int| 0 <= m < c7.len() implies b[m] == #[trigger] c7[m] by { assert(c8[m] == c7[m]); }
    assert forall|m: int| 0 <= m < c6.len() implies b[m] == #[trigger] c6[m] by { assert(c7[m] == c6[m]); }
    assert forall|m: int| 0 <= m < c5.len() implies b[m] == #[trigger] c5[m] by { assert(c6[m] == c5[m]); }
    assert forall|m: int| 0 <= m < c4.len() implies b[m] == #[trigger] c4[m] by { assert(c5[m] == c4[m]); }
    assert forall|m: int| 0 <= m < c3.len() implies b[m] == #[trigger] c3[m] by { assert(c4[m] == c3[m]); }
    assert forall|m: int| 0 <= m < c2.len() implies b[m] == #[trigger] c2[m] by { assert(c3[m] == c2[m]); }
    assert forall|m: int| 0 <= m < c1.len() implies b[m] == #[trigger] c1[m] by { assert(c2[m] == c1[m]); }
    lemma_piece(b, c0, p.wasm);
    lemma_piece(b, c1, p.vocab);
    lemma_piece(b, c2, p.dict_tables);
    lemma_piece(b, c3, p.postings);
    lemma_piece(b, c4, p.suffix_array);
    lemma_piece(b, c5, p.docs);
    lemma_piece(b, c6, p.section_table);
    lemma_piece(b, c7, p.skip_lists);
    lemma_piece(b, c8, p.lev_dfa);
}

/// Writing a layer whose header describes it, then reading the bytes back,
/// gives the same header values and the same sections.
#[verifier::rlimit(30)]
pub proof fn lemma_layer_roundtrip(p: LayerParts)
    requires
        spec_layer_consistent(p),
        spec_layer_bytes(p).len() <= MAX_FILE_SIZE,
    ensures
        spec_parse_layer(spec_layer_bytes(p)) matches Ok(q) && same_parts(q, p),
{
    let h = p.header;
    let c = spec_layer_content(p);
    let f = SorexFooter { crc32: crc32_of(c) };
    let b = spec_layer_bytes(p);
    lemma_layer_pieces(p);
    lemma_footer_roundtrip(c, f);
    assert(b.subrange(0, b.len() - 8) =~= c);
    let tail = b.subrange(52, b.len() as int);
    lemma_header_bytes_len(h);
    assert(b =~= spec_header_bytes(h) + tail) by {
        assert forall|m: int| 0 <= m < 52 implies b[m] == #[trigger] spec_header_bytes(h)[m] by {
            assert(c[m] == spec_header_bytes(h)[m]);
        }
    }
    lemma_header_roundtrip(h, tail);
    let g = spec_header_at(b);
    assert(spec_read_header(b) == Ok::<SorexHeader, FormatError>(g));
    assert(same_header(g, h));
    assert(spec_content_size(g) == b.len() - 8);
    let q = spec_sections_of(b, g);
    assert(same_parts(q, p));
}

/// A file whose stored checksum is not the CRC32 of what precedes the footer
/// is rejected as corrupted, whatever else it holds (once its size and
/// footer magic pass).
pub proof fn lemma_crc_mismatch_rejected(bytes: Seq<u8>)
    requires
        60 <= bytes.len() <= MAX_FILE_SIZE,
        spec_read_footer(bytes) matches Ok(f) && f.crc32 != crc32_of(bytes.subrange(0, bytes.len() - 8)),
    ensures
        spec_parse_layer(bytes) == Err::<LayerParts, FormatError>(FormatError::CrcMismatch),
{
}

} // verus!
