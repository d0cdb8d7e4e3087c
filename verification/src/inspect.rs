//! What `sorex inspect` reports about a `.sorex` file: its header (also of
//! files before version 3, whose header is 36 bytes), the checksum, the
//! Brotli size of the whole file, and the per-section breakdown of file
//! size against raw size.
//!
//! Raw sizes are what the data would take without any encoding: the bytes
//! of the strings, 8 bytes per suffix array entry, 9 bytes per posting.
//! Sums too large for `usize` are shown as `usize::MAX`.

use std::io::Write;

use vstd::prelude::*;
use vstd::slice::slice_subrange;
use vstd::utf8::encode_utf8;

use crate::binary::docs::{opt_view, strings_view, DocFields, DocMeta};
use crate::binary::header::{
    crc32_of, read_u32_le, spec_magic, spec_read_footer, spec_read_header, spec_read_u32, same_header,
    FormatFlags, SorexFooter, SorexHeader, FOOTER_SIZE, HEADER_SIZE, MAGIC,
};
use crate::binary::loaded::{spec_load_file, LoadedLayer, LoadedModel};
use crate::binary::postings::PostingEntry;
use crate::error::FormatError;

verus! {

/// Header size of files before version 3.
pub const LEGACY_HEADER_SIZE: usize = 36;

// ============================================================================
// HEADER
// ============================================================================

/// The header of a file before version 3: magic, version, a flags byte that
/// carried nothing, then seven little-endian u32 lengths; the sections
/// added later are empty.
pub open spec fn spec_legacy_header_at(bytes: Seq<u8>) -> SorexHeader {
    SorexHeader {
        version: bytes[4],
        flags: FormatFlags(0),
        doc_count: spec_read_u32(bytes, 6),
        term_count: spec_read_u32(bytes, 10),
        vocab_len: spec_read_u32(bytes, 14),
        sa_len: spec_read_u32(bytes, 18),
        postings_len: spec_read_u32(bytes, 22),
        skip_len: spec_read_u32(bytes, 26),
        section_table_len: spec_read_u32(bytes, 30),
        lev_dfa_len: 0,
        docs_len: 0,
        wasm_len: 0,
        dict_table_len: 0,
    }
}

/// The header of a file and its size: files shorter than the smallest
/// header and footer are refused; from version 3 on the current header is
/// read, before it the legacy one.
pub open spec fn spec_inspect_header(bytes: Seq<u8>) -> Result<(SorexHeader, usize), FormatError> {
    if bytes.len() < LEGACY_HEADER_SIZE + FOOTER_SIZE {
        Err(FormatError::FileTooSmall)
    } else if bytes[4] >= 3 {
        match spec_read_header(bytes) {
            Ok(h) => Ok((h, HEADER_SIZE)),
            Err(e) => Err(e),
        }
    } else if bytes.subrange(0, 4) != spec_magic() {
        Err(FormatError::InvalidMagic)
    } else {
        Ok((spec_legacy_header_at(bytes), LEGACY_HEADER_SIZE))
    }
}

/// Read the header of a file of any version, with its size.
pub fn read_inspect_header(bytes: &[u8]) -> (r: Result<(SorexHeader, usize), FormatError>)
    ensures
        match spec_inspect_header(bytes@) {
            Ok((h, n)) => r matches Ok((g, m)) && same_header(g, h) && m == n,
            Err(e) => r == Err::<(SorexHeader, usize), FormatError>(e),
        },
{
    if bytes.len() < LEGACY_HEADER_SIZE + FOOTER_SIZE {
        return Err(FormatError::FileTooSmall);
    }
    if bytes[4] >= 3 {
        return match SorexHeader::read(bytes) {
            Ok(h) => Ok((h, HEADER_SIZE)),
            Err(e) => Err(e),
        };
    }
    if bytes[0] != MAGIC[0] || bytes[1] != MAGIC[1] || bytes[2] != MAGIC[2] || bytes[3] != MAGIC[3] {
        proof {
            if bytes@.subrange(0, 4) == spec_magic() {
                assert(bytes@[0] == bytes@.subrange(0, 4)[0]);
                assert(bytes@[1] == bytes@.subrange(0, 4)[1]);
                assert(bytes@[2] == bytes@.subrange(0, 4)[2]);
                assert(bytes@[3] == bytes@.subrange(0, 4)[3]);
            }
        }
        return Err(FormatError::InvalidMagic);
    }
    assert(bytes@.subrange(0, 4) =~= spec_magic());
    Ok((
        SorexHeader {
            version: bytes[4],
            flags: FormatFlags(0),
            doc_count: read_u32_le(bytes, 6),
            term_count: read_u32_le(bytes, 10),
            vocab_len: read_u32_le(bytes, 14),
            sa_len: read_u32_le(bytes, 18),
            postings_len: read_u32_le(bytes, 22),
            skip_len: read_u32_le(bytes, 26),
            section_table_len: read_u32_le(bytes, 30),
            lev_dfa_len: 0,
            docs_len: 0,
            wasm_len: 0,
            dict_table_len: 0,
        },
        LEGACY_HEADER_SIZE,
    ))
}

// ============================================================================
// RAW SIZES
// ============================================================================

/// `x`, or `usize::MAX` when it does not fit.
pub open spec fn capped(x: nat) -> usize {
    if x <= usize::MAX {
        x as usize
    } else {
        usize::MAX
    }
}

/// The UTF-8 bytes of the strings, summed.
pub open spec fn utf8_total(s: Seq<Seq<char>>) -> nat
    decreases s.len(),
{
    if s.len() == 0 {
        0
    } else {
        utf8_total(s.drop_last()) + encode_utf8(s.last()).len()
    }
}

/// The UTF-8 length of an optional string (0 when absent).
pub open spec fn opt_utf8_len(o: Option<Seq<char>>) -> nat {
    match o {
        Some(s) => encode_utf8(s).len(),
        None => 0,
    }
}

/// A document's raw size: title, excerpt, href, type, category, author and
/// tags, as bytes.
pub open spec fn doc_raw_len(d: DocFields) -> nat {
    encode_utf8(d.title).len() + encode_utf8(d.excerpt).len() + encode_utf8(d.href).len()
        + encode_utf8(d.doc_type).len() + opt_utf8_len(d.category) + opt_utf8_len(d.author)
        + utf8_total(d.tags)
}

/// The raw sizes of the documents, summed.
pub open spec fn docs_raw_total(d: Seq<DocFields>) -> nat
    decreases d.len(),
{
    if d.len() == 0 {
        0
    } else {
        docs_raw_total(d.drop_last()) + doc_raw_len(d.last())
    }
}

/// Nine bytes per posting (doc id, section index, heading level), summed
/// over the lists.
pub open spec fn postings_raw_total(p: Seq<Seq<PostingEntry>>) -> nat
    decreases p.len(),
{
    if p.len() == 0 {
        0
    } else {
        postings_raw_total(p.drop_last()) + 9 * p.last().len()
    }
}

/// The raw sizes of the sections whose encoding saves space.
#[derive(Debug, Clone, Copy, PartialEq, Eq, Structural)]
pub struct RawSizes {
    pub vocabulary: usize,
    pub suffix_array: usize,
    pub postings: usize,
    pub section_table: usize,
    pub docs: usize,
}

/// The raw sizes of a loaded index.
pub open spec fn spec_raw_sizes(m: LoadedModel) -> RawSizes {
    RawSizes {
        vocabulary: capped(utf8_total(m.vocabulary)),
        suffix_array: capped(8 * m.suffix_array.len()),
        postings: capped(postings_raw_total(m.postings)),
        section_table: capped(utf8_total(m.section_table)),
        docs: capped(docs_raw_total(m.docs)),
    }
}

/// No raw sizes: the index could not be loaded.
pub open spec fn no_raw_sizes() -> RawSizes {
    RawSizes { vocabulary: 0, suffix_array: 0, postings: 0, section_table: 0, docs: 0 }
}

/// Add `v` to a capped running total.
fn add_capped(acc: usize, v: usize, Ghost(total): Ghost<nat>) -> (r: usize)
    requires
        acc == capped(total),
    ensures
        r == capped((total + v) as nat),
{
    if acc > usize::MAX - v {
        usize::MAX
    } else {
        acc + v
    }
}

/// Add the UTF-8 lengths of `strings` to a capped running total.
fn add_utf8_total(acc: usize, strings: &Vec<String>, Ghost(total): Ghost<nat>) -> (r: usize)
    requires
        acc == capped(total),
    ensures
        r == capped(total + utf8_total(strings_view(strings@))),
{
    let ghost sv = strings_view(strings@);
    let mut acc = acc;
    let mut i: usize = 0;
    assert(sv.take(0) =~= Seq::<Seq<char>>::empty());
    while i < strings.len()
        invariant
            i <= strings@.len(),
            sv == strings_view(strings@),
            acc == capped(total + utf8_total(sv.take(i as int))),
        decreases strings@.len() - i,
    {
        proof {
            assert(sv.take(i + 1).drop_last() =~= sv.take(i as int));
            assert(sv[i as int] == strings@[i as int]@);
        }
        acc = add_capped(acc, strings[i].as_str().as_bytes().len(), Ghost(total + utf8_total(sv.take(i as int))));
        i = i + 1;
    }
    assert(sv.take(i as int) =~= sv);
    acc
}

/// Add the UTF-8 length of an optional string to a capped running total.
fn add_opt_len(acc: usize, s: &Option<String>, Ghost(total): Ghost<nat>) -> (r: usize)
    requires
        acc == capped(total),
    ensures
        r == capped(total + opt_utf8_len(opt_view(*s))),
{
    match s {
        Some(x) => add_capped(acc, x.as_str().as_bytes().len(), Ghost(total)),
        None => acc,
    }
}

/// Add a document's raw size to a capped running total.
fn add_doc_raw(acc: usize, d: &DocMeta, Ghost(total): Ghost<nat>) -> (r: usize)
    requires
        acc == capped(total),
    ensures
        r == capped(total + doc_raw_len(d@)),
{
    let ghost t1 = total + encode_utf8(d.title@).len();
    let ghost t2 = t1 + encode_utf8(d.excerpt@).len();
    let ghost t3 = t2 + encode_utf8(d.href@).len();
    let ghost t4 = t3 + encode_utf8(d.doc_type@).len();
    let ghost t5 = t4 + opt_utf8_len(d@.category);
    let ghost t6 = t5 + opt_utf8_len(d@.author);
    let a = add_capped(acc, d.title.as_str().as_bytes().len(), Ghost(total));
    let a = add_capped(a, d.excerpt.as_str().as_bytes().len(), Ghost(t1));
    let a = add_capped(a, d.href.as_str().as_bytes().len(), Ghost(t2));
    let a = add_capped(a, d.doc_type.as_str().as_bytes().len(), Ghost(t3));
    let a = add_opt_len(a, &d.category, Ghost(t4));
    let a = add_opt_len(a, &d.author, Ghost(t5));
    add_utf8_total(a, &d.tags, Ghost(t6))
}

/// The raw sizes of a loaded index.
pub fn raw_sizes(layer: &LoadedLayer) -> (r: RawSizes)
    ensures
        r == spec_raw_sizes(layer@),
{
    let vocabulary = add_utf8_total(0, &layer.vocabulary, Ghost(0));
    let section_table = add_utf8_total(0, &layer.section_table, Ghost(0));
    let sa_len = layer.suffix_array.len();
    let suffix_array = if sa_len > usize::MAX / 8 {
        assert(8 * sa_len > usize::MAX) by (nonlinear_arith)
            requires
                sa_len > usize::MAX / 8,
        ;
        usize::MAX
    } else {
        assert(8 * sa_len <= usize::MAX) by (nonlinear_arith)
            requires
                sa_len <= usize::MAX / 8,
        ;
        sa_len * 8
    };

    let ghost pv = layer@.postings;
    let mut postings: usize = 0;
    let mut i: usize = 0;
    assert(pv.take(0) =~= Seq::<Seq<PostingEntry>>::empty());
    while i < layer.postings.len()
        invariant
            i <= layer.postings@.len(),
            pv == layer@.postings,
            pv.len() == layer.postings@.len(),
            postings == capped(postings_raw_total(pv.take(i as int))),
        decreases layer.postings@.len() - i,
    {
        let ghost before = postings_raw_total(pv.take(i as int));
        proof {
            assert(pv.take(i + 1).drop_last() =~= pv.take(i as int));
            assert(pv[i as int] == layer.postings@[i as int]@);
        }
        let len = layer.postings[i].len();
        if len > usize::MAX / 9 {
            assert(9 * len > usize::MAX) by (nonlinear_arith)
                requires
                    len > usize::MAX / 9,
            ;
            postings = usize::MAX;
        } else {
            assert(9 * len <= usize::MAX) by (nonlinear_arith)
                requires
                    len <= usize::MAX / 9,
            ;
            postings = add_capped(postings, len * 9, Ghost(before));
        }
        i = i + 1;
    }
    assert(pv.take(i as int) =~= pv);

    let ghost dv = layer@.docs;
    let mut docs: usize = 0;
    let mut k: usize = 0;
    assert(dv.take(0) =~= Seq::<DocFields>::empty());
    while k < layer.docs.len()
        invariant
            k <= layer.docs@.len(),
            dv == layer@.docs,
            dv.len() == layer.docs@.len(),
            docs == capped(docs_raw_total(dv.take(k as int))),
        decreases layer.docs@.len() - k,
    {
        proof {
            assert(dv.take(k + 1).drop_last() =~= dv.take(k as int));
            assert(dv[k as int] == layer.docs@[k as int]@);
        }
        docs = add_doc_raw(docs, &layer.docs[k], Ghost(docs_raw_total(dv.take(k as int))));
        k = k + 1;
    }
    assert(dv.take(k as int) =~= dv);
    RawSizes { vocabulary, suffix_array, postings, section_table, docs }
}

// ============================================================================
// BREAKDOWN
// ============================================================================

/// One section of the file: its name, its size in the file, its raw size
/// and a short name of how it is encoded.
#[derive(Debug, Clone)]
pub struct SectionSize {
    pub name: String,
    pub size: usize,
    pub raw_size: usize,
    pub technique: String,
}

/// The sections as (name, size, raw size, technique).
pub open spec fn sections_view(s: Seq<SectionSize>) -> Seq<(Seq<char>, int, int, Seq<char>)> {
    s.map_values(|x: SectionSize| (x.name@, x.size as int, x.raw_size as int, x.technique@))
}

/// The header size of a version.
pub open spec fn header_size_for(version: u8) -> usize {
    if version >= 3 {
        HEADER_SIZE
    } else {
        LEGACY_HEADER_SIZE
    }
}

/// The sections in file order: header; WASM (version 7 on, when present);
/// vocabulary; dictionary tables (version 7 on, when present); postings;
/// suffix array; docs (version 5 on); section table; skip lists; the
/// Levenshtein DFA (version 3 on); footer.
pub open spec fn spec_sections(h: SorexHeader, raw: RawSizes) -> Seq<(Seq<char>, int, int, Seq<char>)> {
    let hs = header_size_for(h.version) as int;
    let s0 = seq![("HEADER"@, hs, hs, ""@)];
    let s1 = if h.version >= 7 && h.wasm_len > 0 {
        s0.push(("WASM"@, h.wasm_len as int, h.wasm_len as int, "RAW"@))
    } else {
        s0
    };
    let s2 = s1.push(("VOCABULARY"@, h.vocab_len as int, raw.vocabulary as int, "FC"@));
    let s3 = if h.version >= 7 && h.dict_table_len > 0 {
        s2.push(("DICT TABLES"@, h.dict_table_len as int, h.dict_table_len as int, "DICT"@))
    } else {
        s2
    };
    let s4 = s3.push(("POSTINGS"@, h.postings_len as int, raw.postings as int, "DELTA"@));
    let s5 = s4.push(("SUFFIX ARRAY"@, h.sa_len as int, raw.suffix_array as int, "STRM"@));
    let s6 = if h.version >= 5 {
        s5.push(("DOCS"@, h.docs_len as int, raw.docs as int, "BIN"@))
    } else {
        s5
    };
    let s7 = s6.push(("SECTION TABLE"@, h.section_table_len as int, raw.section_table as int, "DEDUP"@));
    let s8 = s7.push(("SKIP LISTS"@, h.skip_len as int, h.skip_len as int, "SKIP"@));
    let s9 = if h.version >= 3 {
        s8.push(("LEV DFA"@, h.lev_dfa_len as int, h.lev_dfa_len as int, "DFA"@))
    } else {
        s8
    };
    s9.push(("FOOTER"@, FOOTER_SIZE as int, FOOTER_SIZE as int, "CRC"@))
}

fn push_section(v: &mut Vec<SectionSize>, name: &str, size: usize, raw_size: usize, technique: &str)
    ensures
        sections_view(final(v)@) == sections_view(old(v)@).push((name@, size as int, raw_size as int, technique@)),
{
    let ghost before = v@;
    v.push(SectionSize { name: String::from_str(name), size, raw_size, technique: String::from_str(technique) });
    assert(sections_view(v@) =~= sections_view(before).push((name@, size as int, raw_size as int, technique@)));
}

/// The per-section breakdown of a file with this header and these raw
/// sizes, in file order.
pub fn section_breakdown(header: &SorexHeader, raw: &RawSizes) -> (r: Vec<SectionSize>)
    ensures
        sections_view(r@) == spec_sections(*header, *raw),
{
    let h = header;
    let hs = if h.version >= 3 { HEADER_SIZE } else { LEGACY_HEADER_SIZE };
    let mut v: Vec<SectionSize> = Vec::new();
    assert(sections_view(v@) =~= Seq::<(Seq<char>, int, int, Seq<char>)>::empty());
    push_section(&mut v, "HEADER", hs, hs, "");
    assert(sections_view(v@) =~= seq![("HEADER"@, hs as int, hs as int, ""@)]);
    if h.version >= 7 && h.wasm_len > 0 {
        push_section(&mut v, "WASM", h.wasm_len as usize, h.wasm_len as usize, "RAW");
    }
    push_section(&mut v, "VOCABULARY", h.vocab_len as usize, raw.vocabulary, "FC");
    if h.version >= 7 && h.dict_table_len > 0 {
        push_section(&mut v, "DICT TABLES", h.dict_table_len as usize, h.dict_table_len as usize, "DICT");
    }
    push_section(&mut v, "POSTINGS", h.postings_len as usize, raw.postings, "DELTA");
    push_section(&mut v, "SUFFIX ARRAY", h.sa_len as usize, raw.suffix_array, "STRM");
    if h.version >= 5 {
        push_section(&mut v, "DOCS", h.docs_len as usize, raw.docs, "BIN");
    }
    push_section(&mut v, "SECTION TABLE", h.section_table_len as usize, raw.section_table, "DEDUP");
    push_section(&mut v, "SKIP LISTS", h.skip_len as usize, h.skip_len as usize, "SKIP");
    if h.version >= 3 {
        push_section(&mut v, "LEV DFA", h.lev_dfa_len as usize, h.lev_dfa_len as usize, "DFA");
    }
    push_section(&mut v, "FOOTER", FOOTER_SIZE, FOOTER_SIZE, "CRC");
    v
}

// ============================================================================
// BROTLI AND THE WHOLE INSPECTION
// ============================================================================

/// The Brotli compression of `bytes` at quality 11 with a 2^22 byte window
/// (none when the encoder reports an error).
pub uninterp spec fn brotli_compressed(bytes: Seq<u8>) -> Option<Seq<u8>>;

/// The size of the Brotli compression of `bytes`, by `brotli`'s
/// `CompressorWriter` (4096-byte buffer, quality 11, window 22): what the
/// encoder wrote once the input is written and the stream finished, or none
/// when writing the input failed. The contract names the compressed bytes
/// and claims nothing about them beyond that name.
#[verifier::external_body]
fn brotli_size(bytes: &[u8]) -> (r: Option<usize>)
    ensures
        match brotli_compressed(bytes@) {
            Some(c) => r == Some(c.len() as usize),
            None => r is None,
        },
{
    let mut encoder = brotli::CompressorWriter::new(Vec::new(), 4096, 11, 22);
    match encoder.write_all(bytes) {
        Ok(()) => Some(encoder.into_inner().len()),
        Err(_) => None,
    }
}

/// What `sorex inspect` reports about a file.
pub struct Inspection {
    pub header: SorexHeader,
    pub header_size: usize,
    /// The checksum the footer records.
    pub crc32: u32,
    /// Whether the content before the footer has that checksum.
    pub crc_valid: bool,
    /// The Brotli size of the whole file.
    pub compressed_size: Option<usize>,
    /// The decoded index, when the file loads.
    pub layer: Option<LoadedLayer>,
    /// Raw sizes of the loaded index (all zero when it does not load).
    pub raw: RawSizes,
    /// The per-section breakdown.
    pub sections: Vec<SectionSize>,
}

/// The Brotli size the contract of `brotli_size` names.
pub open spec fn spec_compressed_size(bytes: Seq<u8>) -> Option<usize> {
    match brotli_compressed(bytes) {
        Some(c) => Some(c.len() as usize),
        None => None,
    }
}

/// Inspect the bytes of a `.sorex` file: read the header (of any version)
/// and the footer, check the checksum, compress the file with Brotli, load
/// the index when it loads, and break the file down by section.
pub fn inspect_bytes(bytes: &[u8]) -> (r: Result<Inspection, FormatError>)
    ensures
        match spec_inspect_header(bytes@) {
            Err(e) => r matches Err(x) && x == e,
            Ok((h, hs)) => match spec_read_footer(bytes@) {
                Err(e) => r matches Err(x) && x == e,
                Ok(f) => r matches Ok(i) && {
                    &&& same_header(i.header, h)
                    &&& i.header_size == hs
                    &&& i.crc32 == f.crc32
                    &&& i.crc_valid == (f.crc32 == crc32_of(bytes@.subrange(0, bytes@.len() - FOOTER_SIZE)))
                    &&& i.compressed_size == spec_compressed_size(bytes@)
                    &&& match spec_load_file(bytes@) {
                        Ok(m) => i.layer matches Some(l) && l@ == m && i.raw == spec_raw_sizes(m),
                        Err(_) => i.layer is None && i.raw == no_raw_sizes(),
                    }
                    &&& sections_view(i.sections@) == spec_sections(i.header, i.raw)
                },
            },
        },
{
    let (header, header_size) = match read_inspect_header(bytes) {
        Ok(x) => x,
        Err(e) => return Err(e),
    };
    let footer = match SorexFooter::read(bytes) {
        Ok(f) => f,
        Err(e) => return Err(e),
    };
    let content = slice_subrange(bytes, 0, bytes.len() - FOOTER_SIZE);
    let crc_valid = footer.crc32 == SorexFooter::compute_crc32(content);
    let compressed_size = brotli_size(bytes);
    let (layer, raw) = match LoadedLayer::from_bytes(bytes) {
        Ok(l) => {
            let raw = raw_sizes(&l);
            (Some(l), raw)
        },
        Err(_) => (None, RawSizes { vocabulary: 0, suffix_array: 0, postings: 0, section_table: 0, docs: 0 }),
    };
    let sections = section_breakdown(&header, &raw);
    Ok(Inspection { header, header_size, crc32: footer.crc32, crc_valid, compressed_size, layer, raw, sections })
}

} // verus!
