//! Binary format header and footer structures.
//!
//! The header is 52 bytes of fixed-size fields that say where every section
//! lives. The footer is 8 bytes: a CRC32 over everything before it, and the
//! magic "XROS". `SectionOffsets` is the one place the layout is computed.

use vstd::prelude::*;
use crate::error::FormatError;
use crate::binary::encoding::{concat_map, lemma_concat_map_push};

verus! {

// ============================================================================
// CONSTANTS
// ============================================================================

/// Magic bytes: "SORX" in ASCII (header)
pub const MAGIC: [u8; 4] = [0x53, 0x4F, 0x52, 0x58];

/// Footer magic: "XROS" (reversed, marks valid file end)
pub const FOOTER_MAGIC: [u8; 4] = [0x58, 0x52, 0x4F, 0x53];

/// Current format version
pub const VERSION: u8 = 12;

/// Block size for skip list blocks
pub const BLOCK_SIZE: usize = 128;

/// Minimum docs for skip list
pub const SKIP_LIST_THRESHOLD: usize = 1024;

/// Skip interval (every N blocks)
pub const SKIP_INTERVAL: usize = 8;

/// Maximum file size: 100 MB
pub const MAX_FILE_SIZE: usize = 104_857_600;

/// Maximum number of documents
pub const MAX_DOC_COUNT: u32 = 10_000_000;

/// Maximum number of terms
pub const MAX_TERM_COUNT: u32 = 10_000_000;

/// Maximum skip list levels
pub const MAX_SKIP_LEVELS: usize = 8;

/// The header magic as a sequence.
pub open spec fn spec_magic() -> Seq<u8> {
    seq![0x53u8, 0x4Fu8, 0x52u8, 0x58u8]
}

/// The footer magic as a sequence.
pub open spec fn spec_footer_magic() -> Seq<u8> {
    seq![0x58u8, 0x52u8, 0x4Fu8, 0x53u8]
}

// ============================================================================
// LITTLE-ENDIAN INTEGERS
// ============================================================================

/// Four little-endian bytes of `v`.
pub open spec fn spec_u32_le(v: u32) -> Seq<u8> {
    seq![(v % 256) as u8, ((v / 256) % 256) as u8, ((v / 65536) % 256) as u8, (v / 16777216) as u8]
}

/// The little-endian u32 at `bytes[at..at + 4]`.
pub open spec fn spec_read_u32(bytes: Seq<u8>, at: int) -> u32 {
    (bytes[at] as int + 256 * bytes[at + 1] as int + 65536 * bytes[at + 2] as int
        + 16777216 * bytes[at + 3] as int) as u32
}

/// Append the four little-endian bytes of `v`.
pub(crate) fn push_u32_le(buf: &mut Vec<u8>, v: u32)
    ensures
        final(buf)@ == old(buf)@ + spec_u32_le(v),
{
    buf.push((v % 256) as u8);
    buf.push(((v / 256) % 256) as u8);
    buf.push(((v / 65536) % 256) as u8);
    buf.push((v / 16777216) as u8);
    assert(final(buf)@ =~= old(buf)@ + spec_u32_le(v));
}

/// Read the little-endian u32 at `bytes[at..at + 4]`.
pub(crate) fn read_u32_le(bytes: &[u8], at: usize) -> (v: u32)
    requires
        at + 4 <= bytes@.len(),
    ensures
        v == spec_read_u32(bytes@, at as int),
{
    let b0 = bytes[at] as u32;
    let b1 = bytes[at + 1] as u32;
    let b2 = bytes[at + 2] as u32;
    let b3 = bytes[at + 3] as u32;
    b0 + 256 * b1 + 65536 * b2 + 16777216 * b3
}

/// Reading back the four bytes of `v` gives `v`.
pub proof fn lemma_u32_le_roundtrip(bytes: Seq<u8>, at: int, v: u32)
    requires
        0 <= at,
        at + 4 <= bytes.len(),
        bytes.subrange(at, at + 4) == spec_u32_le(v),
    ensures
        spec_read_u32(bytes, at) == v,
{
    assert(bytes[at] == bytes.subrange(at, at + 4)[0]);
    assert(bytes[at + 1] == bytes.subrange(at, at + 4)[1]);
    assert(bytes[at + 2] == bytes.subrange(at, at + 4)[2]);
    assert(bytes[at + 3] == bytes.subrange(at, at + 4)[3]);
}

// ============================================================================
// FLAGS
// ============================================================================

/// Format flags
#[derive(Debug, Clone, Copy)]
pub struct FormatFlags(pub u8);

/// Flag bit: skip lists present.
pub const HAS_SKIP_LISTS: u8 = 1;

impl FormatFlags {
    pub fn new() -> (f: Self)
        ensures
            f.0 == 0,
    {
        FormatFlags(0)
    }

    pub fn with_skip_lists(self) -> (f: Self)
        ensures
            f.0 == self.0 | HAS_SKIP_LISTS,
            f.0 & HAS_SKIP_LISTS != 0,
            f.0 & !HAS_SKIP_LISTS == self.0 & !HAS_SKIP_LISTS,
    {
        let b = self.0;
        assert(((b | 1) & 1) != 0 && (b | 1) & !1u8 == b & !1u8) by (bit_vector);
        FormatFlags(self.0 | HAS_SKIP_LISTS)
    }

    pub open spec fn spec_has_skip_lists(self) -> bool {
        self.0 & HAS_SKIP_LISTS != 0
    }

    pub fn has_skip_lists(self) -> (b: bool)
        ensures
            b == self.spec_has_skip_lists(),
    {
        self.0 & HAS_SKIP_LISTS != 0
    }
}

// ============================================================================
// HEADER
// ============================================================================

/// Binary format header (52 bytes fixed size)
#[derive(Debug, Clone)]
pub struct SorexHeader {
    pub version: u8,
    pub flags: FormatFlags,
    pub doc_count: u32,
    pub term_count: u32,
    pub vocab_len: u32,
    pub sa_len: u32,
    pub postings_len: u32,
    pub skip_len: u32,
    /// Section ID string table length
    pub section_table_len: u32,
    /// Levenshtein DFA bytes length
    pub lev_dfa_len: u32,
    /// Docs binary section length
    pub docs_len: u32,
    /// WASM binary length
    pub wasm_len: u32,
    /// Dictionary tables length
    pub dict_table_len: u32,
}

/// Size of the header in bytes.
pub const HEADER_SIZE: usize = 52;

/// Size of the footer in bytes.
pub const FOOTER_SIZE: usize = 8;

/// The eleven 32-bit fields of a header, in the order they are written.
pub open spec fn spec_header_fields(h: SorexHeader) -> Seq<u32> {
    seq![h.doc_count, h.term_count, h.vocab_len, h.sa_len, h.postings_len, h.skip_len,
        h.section_table_len, h.lev_dfa_len, h.docs_len, h.wasm_len, h.dict_table_len]
}

/// A sequence of u32 values, each as four little-endian bytes.
pub open spec fn spec_u32_stream(s: Seq<u32>) -> Seq<u8> {
    concat_map(s, |v: u32| spec_u32_le(v))
}

/// The 52 bytes of a header: magic, version, flags, the eleven fields, two
/// reserved zero bytes.
pub open spec fn spec_header_bytes(h: SorexHeader) -> Seq<u8> {
    spec_magic() + seq![h.version, h.flags.0] + spec_u32_stream(spec_header_fields(h)) + seq![0u8, 0u8]
}

pub(crate) proof fn lemma_u32_stream_len(s: Seq<u32>)
    ensures
        spec_u32_stream(s).len() == 4 * s.len(),
    decreases s.len(),
{
    if s.len() > 0 {
        lemma_u32_stream_len(s.drop_last());
    }
}

pub(crate) proof fn lemma_u32_stream_at(s: Seq<u32>, k: int)
    requires
        0 <= k < s.len(),
    ensures
        spec_u32_stream(s).subrange(4 * k, 4 * k + 4) == spec_u32_le(s[k]),
    decreases s.len(),
{
    let f = |v: u32| spec_u32_le(v);
    let init = s.drop_last();
    lemma_u32_stream_len(init);
    assert(spec_u32_stream(s) == spec_u32_stream(init) + f(s.last()));
    if k < init.len() {
        lemma_u32_stream_at(init, k);
        assert(init[k] == s[k]);
        assert(spec_u32_stream(s).subrange(4 * k, 4 * k + 4) =~= spec_u32_stream(init).subrange(4 * k, 4 * k + 4));
    } else {
        assert(s[k] == s.last());
        assert(spec_u32_stream(s).subrange(4 * k, 4 * k + 4) =~= f(s.last()));
    }
}

/// The header that `bytes` (at least 52 long) describe.
pub open spec fn spec_header_at(bytes: Seq<u8>) -> SorexHeader {
    SorexHeader {
        version: bytes[4],
        flags: FormatFlags(bytes[5]),
        doc_count: spec_read_u32(bytes, 6),
        term_count: spec_read_u32(bytes, 10),
        vocab_len: spec_read_u32(bytes, 14),
        sa_len: spec_read_u32(bytes, 18),
        postings_len: spec_read_u32(bytes, 22),
        skip_len: spec_read_u32(bytes, 26),
        section_table_len: spec_read_u32(bytes, 30),
        lev_dfa_len: spec_read_u32(bytes, 34),
        docs_len: spec_read_u32(bytes, 38),
        wasm_len: spec_read_u32(bytes, 42),
        dict_table_len: spec_read_u32(bytes, 46),
    }
}

/// What reading a header from the start of `bytes` yields.
pub open spec fn spec_read_header(bytes: Seq<u8>) -> Result<SorexHeader, FormatError> {
    if bytes.len() < 4 {
        Err(FormatError::TruncatedHeader)
    } else if bytes.subrange(0, 4) != spec_magic() {
        Err(FormatError::InvalidMagic)
    } else if bytes.len() < 52 {
        Err(FormatError::TruncatedHeader)
    } else {
        Ok(spec_header_at(bytes))
    }
}

/// Whether two headers hold the same values.
pub open spec fn same_header(a: SorexHeader, b: SorexHeader) -> bool {
    &&& a.version == b.version
    &&& a.flags.0 == b.flags.0
    &&& a.doc_count == b.doc_count
    &&& a.term_count == b.term_count
    &&& a.vocab_len == b.vocab_len
    &&& a.sa_len == b.sa_len
    &&& a.postings_len == b.postings_len
    &&& a.skip_len == b.skip_len
    &&& a.section_table_len == b.section_table_len
    &&& a.lev_dfa_len == b.lev_dfa_len
    &&& a.docs_len == b.docs_len
    &&& a.wasm_len == b.wasm_len
    &&& a.dict_table_len == b.dict_table_len
}

/// Sum of all section lengths plus the header: where the footer starts.
pub open spec fn spec_content_size(h: SorexHeader) -> int {
    52 + h.wasm_len + h.vocab_len + h.dict_table_len + h.postings_len + h.sa_len
        + h.docs_len + h.section_table_len + h.skip_len + h.lev_dfa_len
}

impl SorexHeader {
    /// Compute section byte offsets for this header: the one place the file
    /// layout is defined.
    pub fn section_offsets(&self) -> (o: SectionOffsets)
        requires
            spec_content_size(*self) + 8 <= usize::MAX,
        ensures
            o.wf_for(*self),
    {
        SectionOffsets::from_header(self)
    }

    /// Append the 52 header bytes.
    pub fn write(&self, buf: &mut Vec<u8>)
        ensures
            final(buf)@ == old(buf)@ + spec_header_bytes(*self),
    {
        buf.push(MAGIC[0]);
        buf.push(MAGIC[1]);
        buf.push(MAGIC[2]);
        buf.push(MAGIC[3]);
        buf.push(self.version);
        buf.push(self.flags.0);
        let fields: [u32; 11] = [self.doc_count, self.term_count, self.vocab_len, self.sa_len,
            self.postings_len, self.skip_len, self.section_table_len, self.lev_dfa_len,
            self.docs_len, self.wasm_len, self.dict_table_len];
        let ghost fs = spec_header_fields(*self);
        assert(fields@ =~= fs);
        let ghost mid = buf@;
        let mut i: usize = 0;
        while i < 11
            invariant
                i <= 11,
                fields@ == fs,
                fs == spec_header_fields(*self),
                buf@ == mid + spec_u32_stream(fs.take(i as int)),
            decreases 11 - i,
        {
            push_u32_le(buf, fields[i]);
            proof {
                assert(fs.take(i as int + 1) =~= fs.take(i as int).push(fs[i as int]));
                lemma_concat_map_push(fs.take(i as int), fs[i as int], |v: u32| spec_u32_le(v));
            }
            i = i + 1;
        }
        assert(fs.take(11) =~= fs);
        buf.push(0u8);
        buf.push(0u8);
        assert(final(buf)@ =~= old(buf)@ + spec_header_bytes(*self));
    }

    /// Read a header from the start of `bytes`.
    pub fn read(bytes: &[u8]) -> (r: Result<SorexHeader, FormatError>)
        ensures
            match spec_read_header(bytes@) {
                Ok(h) => r matches Ok(g) && same_header(g, h),
                Err(e) => r == Err::<SorexHeader, FormatError>(e),
            },
    {
        if bytes.len() < 4 {
            return Err(FormatError::TruncatedHeader);
        }
        if bytes[0] != MAGIC[0] || bytes[1] != MAGIC[1] || bytes[2] != MAGIC[2] || bytes[3] != MAGIC[3] {
            proof {
                if bytes@.subrange(0, 4) == spec_magic() {
                    assert(bytes@[0] == bytes@.subrange(0, 4)[0]);
                    assert(bytes@[1] == bytes@.subrange(0, 4)[1]);
                    assert(bytes@[2] == bytes@.subrange(0, 4)[2]);
                    assert(bytes@[3] == bytes@.subrange(0, 4)[3]);
                }
            }
            return Err(FormatError::InvalidMagic);
        }
        assert(bytes@.subrange(0, 4) =~= spec_magic());
        if bytes.len() < 52 {
            return Err(FormatError::TruncatedHeader);
        }
        Ok(SorexHeader {
            version: bytes[4],
            flags: FormatFlags(bytes[5]),
            doc_count: read_u32_le(bytes, 6),
            term_count: read_u32_le(bytes, 10),
            vocab_len: read_u32_le(bytes, 14),
            sa_len: read_u32_le(bytes, 18),
            postings_len: read_u32_le(bytes, 22),
            skip_len: read_u32_le(bytes, 26),
            section_table_len: read_u32_le(bytes, 30),
            lev_dfa_len: read_u32_le(bytes, 34),
            docs_len: read_u32_le(bytes, 38),
            wasm_len: read_u32_le(bytes, 42),
            dict_table_len: read_u32_le(bytes, 46),
        })
    }
}

/// A written header is 52 bytes long.
pub proof fn lemma_header_bytes_len(h: SorexHeader)
    ensures
        spec_header_bytes(h).len() == 52,
{
    lemma_u32_stream_len(spec_header_fields(h));
}

/// Reading the bytes of a written header, followed by anything, gives back
/// the same header.
pub proof fn lemma_header_roundtrip(h: SorexHeader, rest: Seq<u8>)
    ensures
        spec_read_header(spec_header_bytes(h) + rest) matches Ok(g) && same_header(g, h),
{
    let fs = spec_header_fields(h);
    let st = spec_u32_stream(fs);
    lemma_u32_stream_len(fs);
    let b = spec_header_bytes(h) + rest;
    assert(b.subrange(0, 4) =~= spec_magic());
    assert(b[4] == h.version);
    assert(b[5] == h.flags.0);
    assert forall|k: int| 0 <= k < 11 implies spec_read_u32(b, 6 + 4 * k) == #[trigger] fs[k] by {
        lemma_u32_stream_at(fs, k);
        assert(b.subrange(6 + 4 * k, 10 + 4 * k) =~= st.subrange(4 * k, 4 * k + 4));
        lemma_u32_le_roundtrip(b, 6 + 4 * k, fs[k]);
    }
    assert(spec_read_u32(b, 6) == fs[0]);
    assert(spec_read_u32(b, 10) == fs[1]);
    assert(spec_read_u32(b, 14) == fs[2]);
    assert(spec_read_u32(b, 18) == fs[3]);
    assert(spec_read_u32(b, 22) == fs[4]);
    assert(spec_read_u32(b, 26) == fs[5]);
    assert(spec_read_u32(b, 30) == fs[6]);
    assert(spec_read_u32(b, 34) == fs[7]);
    assert(spec_read_u32(b, 38) == fs[8]);
    assert(spec_read_u32(b, 42) == fs[9]);
    assert(spec_read_u32(b, 46) == fs[10]);
}

// ============================================================================
// SECTION OFFSETS
// ============================================================================

/// Section byte offsets for the file layout (start and end of each section).
#[derive(Debug, Clone, Copy)]
pub struct SectionOffsets {
    pub wasm: (usize, usize),
    pub vocabulary: (usize, usize),
    pub dict_tables: (usize, usize),
    pub postings: (usize, usize),
    pub suffix_array: (usize, usize),
    pub docs: (usize, usize),
    pub section_table: (usize, usize),
    pub skip_lists: (usize, usize),
    pub lev_dfa: (usize, usize),
    pub footer: (usize, usize),
}

impl SectionOffsets {
    /// The offsets laid out from `h`: after the 52-byte header come WASM,
    /// vocabulary, dict tables, postings, suffix array, docs, section table,
    /// skip lists, Levenshtein DFA and the 8-byte footer, each section as
    /// long as the header says and right after the one before.
    pub open spec fn wf_for(self, h: SorexHeader) -> bool {
        &&& self.wasm.0 == 52
        &&& self.wasm.1 == self.wasm.0 + h.wasm_len
        &&& self.vocabulary.0 == self.wasm.1
        &&& self.vocabulary.1 == self.vocabulary.0 + h.vocab_len
        &&& self.dict_tables.0 == self.vocabulary.1
        &&& self.dict_tables.1 == self.dict_tables.0 + h.dict_table_len
        &&& self.postings.0 == self.dict_tables.1
        &&& self.postings.1 == self.postings.0 + h.postings_len
        &&& self.suffix_array.0 == self.postings.1
        &&& self.suffix_array.1 == self.suffix_array.0 + h.sa_len
        &&& self.docs.0 == self.suffix_array.1
        &&& self.docs.1 == self.docs.0 + h.docs_len
        &&& self.section_table.0 == self.docs.1
        &&& self.section_table.1 == self.section_table.0 + h.section_table_len
        &&& self.skip_lists.0 == self.section_table.1
        &&& self.skip_lists.1 == self.skip_lists.0 + h.skip_len
        &&& self.lev_dfa.0 == self.skip_lists.1
        &&& self.lev_dfa.1 == self.lev_dfa.0 + h.lev_dfa_len
        &&& self.footer.0 == self.lev_dfa.1
        &&& self.footer.1 == self.footer.0 + 8
        &&& self.footer.0 == spec_content_size(h)
    }

    /// Compute section offsets from header lengths.
    pub fn from_header(h: &SorexHeader) -> (o: Self)
        requires
            spec_content_size(*h) + 8 <= usize::MAX,
        ensures
            o.wf_for(*h),
    {
        let mut pos: usize = HEADER_SIZE;
        let wasm = (pos, pos + h.wasm_len as usize);
        pos = wasm.1;
        let vocabulary = (pos, pos + h.vocab_len as usize);
        pos = vocabulary.1;
        let dict_tables = (pos, pos + h.dict_table_len as usize);
        pos = dict_tables.1;
        let postings = (pos, pos + h.postings_len as usize);
        pos = postings.1;
        let suffix_array = (pos, pos + h.sa_len as usize);
        pos = suffix_array.1;
        let docs = (pos, pos + h.docs_len as usize);
        pos = docs.1;
        let section_table = (pos, pos + h.section_table_len as usize);
        pos = section_table.1;
        let skip_lists = (pos, pos + h.skip_len as usize);
        pos = skip_lists.1;
        let lev_dfa = (pos, pos + h.lev_dfa_len as usize);
        pos = lev_dfa.1;
        let footer = (pos, pos + FOOTER_SIZE);
        SectionOffsets {
            wasm,
            vocabulary,
            dict_tables,
            postings,
            suffix_array,
            docs,
            section_table,
            skip_lists,
            lev_dfa,
            footer,
        }
    }

    /// Expected content size (everything before footer)
    pub fn content_size(&self) -> (n: usize)
        ensures
            n == self.footer.0,
    {
        self.footer.0
    }

    /// Total file size including footer
    pub fn total_size(&self) -> (n: usize)
        ensures
            n == self.footer.1,
    {
        self.footer.1
    }

    /// Get a slice for a section from the bytes (None when out of range).
    pub fn slice<'a>(&self, bytes: &'a [u8], section: (usize, usize)) -> (r: Option<&'a [u8]>)
        ensures
            r is Some <==> section.0 <= section.1 <= bytes@.len(),
            r matches Some(s) ==> s@ == bytes@.subrange(section.0 as int, section.1 as int),
    {
        if section.0 <= section.1 && section.1 <= bytes.len() {
            Some(vstd::slice::slice_subrange(bytes, section.0, section.1))
        } else {
            None
        }
    }
}

// ============================================================================
// FOOTER
// ============================================================================

/// The reflected IEEE CRC-32 polynomial.
pub const CRC32_POLY: u32 = 0xEDB8_8320;

/// One bit step of the CRC-32 register: shift right, and fold the
/// polynomial in when a one bit leaves.
pub open spec fn crc32_bit_step(c: u32) -> u32 {
    if c & 1 == 1 {
        (c >> 1) ^ CRC32_POLY
    } else {
        c >> 1
    }
}

/// The register after `n` bit steps.
pub open spec fn crc32_shift(c: u32, n: nat) -> u32
    decreases n,
{
    if n == 0 {
        c
    } else {
        crc32_bit_step(crc32_shift(c, (n - 1) as nat))
    }
}

/// The register after feeding the bytes of `data` in order, starting from
/// all ones: each byte is folded into the low bits, then shifted through.
pub open spec fn crc32_register(data: Seq<u8>) -> u32
    decreases data.len(),
{
    if data.len() == 0 {
        0xFFFF_FFFF
    } else {
        crc32_shift(crc32_register(data.drop_last()) ^ (data.last() as u32), 8)
    }
}

/// The CRC-32 (IEEE) checksum of `data`: the final register, inverted.
pub closed spec fn crc32_of(data: Seq<u8>) -> u32 {
    crc32_register(data) ^ 0xFFFF_FFFF
}

/// The CRC-32 of the bytes, computed bit by bit.
pub(crate) fn crc32_digest(data: &[u8]) -> (r: u32)
    ensures
        r == crc32_of(data@),
{
    let mut crc: u32 = 0xFFFF_FFFF;
    let mut i: usize = 0;
    assert(data@.take(0) =~= Seq::<u8>::empty());
    while i < data.len()
        invariant
            i <= data@.len(),
            crc == crc32_register(data@.take(i as int)),
        decreases data@.len() - i,
    {
        let start = crc ^ (data[i] as u32);
        let mut c: u32 = start;
        let mut k: u32 = 0;
        while k < 8
            invariant
                k <= 8,
                c == crc32_shift(start, k as nat),
            decreases 8 - k,
        {
            c = if c & 1 == 1 {
                (c >> 1) ^ CRC32_POLY
            } else {
                c >> 1
            };
            k = k + 1;
        }
        assert(data@.take(i + 1).drop_last() =~= data@.take(i as int));
        assert(data@.take(i + 1).last() == data@[i as int]);
        crc = c;
        i = i + 1;
    }
    assert(data@.take(i as int) =~= data@);
    crc ^ 0xFFFF_FFFF
}

/// Footer with CRC32 checksum and magic number
#[derive(Debug, Clone)]
pub struct SorexFooter {
    /// CRC32 checksum of header + all sections (everything before footer)
    pub crc32: u32,
}

/// The 8 bytes of a footer.
pub open spec fn spec_footer_bytes(f: SorexFooter) -> Seq<u8> {
    spec_u32_le(f.crc32) + spec_footer_magic()
}

/// What reading the footer at the end of `bytes` yields.
pub open spec fn spec_read_footer(bytes: Seq<u8>) -> Result<SorexFooter, FormatError> {
    if bytes.len() < 8 {
        Err(FormatError::FooterTooShort)
    } else if bytes.subrange(bytes.len() - 4, bytes.len() as int) != spec_footer_magic() {
        Err(FormatError::InvalidFooterMagic)
    } else {
        Ok(SorexFooter { crc32: spec_read_u32(bytes, bytes.len() - 8) })
    }
}

impl SorexFooter {
    /// Append the footer bytes.
    pub fn write(&self, buf: &mut Vec<u8>)
        ensures
            final(buf)@ == old(buf)@ + spec_footer_bytes(*self),
    {
        push_u32_le(buf, self.crc32);
        buf.push(FOOTER_MAGIC[0]);
        buf.push(FOOTER_MAGIC[1]);
        buf.push(FOOTER_MAGIC[2]);
        buf.push(FOOTER_MAGIC[3]);
        assert(final(buf)@ =~= old(buf)@ + spec_footer_bytes(*self));
    }

    /// Read the footer at the end of `bytes`.
    pub fn read(bytes: &[u8]) -> (r: Result<SorexFooter, FormatError>)
        ensures
            match spec_read_footer(bytes@) {
                Ok(f) => r matches Ok(g) && g.crc32 == f.crc32,
                Err(e) => r == Err::<SorexFooter, FormatError>(e),
            },
    {
        if bytes.len() < FOOTER_SIZE {
            return Err(FormatError::FooterTooShort);
        }
        let n = bytes.len();
        let ghost m = bytes@.subrange(n - 4, n as int);
        if bytes[n - 4] != FOOTER_MAGIC[0] || bytes[n - 3] != FOOTER_MAGIC[1]
            || bytes[n - 2] != FOOTER_MAGIC[2] || bytes[n - 1] != FOOTER_MAGIC[3] {
            proof {
                if m == spec_footer_magic() {
                    assert(bytes@[n - 4] == m[0]);
                    assert(bytes@[n - 3] == m[1]);
                    assert(bytes@[n - 2] == m[2]);
                    assert(bytes@[n - 1] == m[3]);
                }
            }
            return Err(FormatError::InvalidFooterMagic);
        }
        assert(m =~= spec_footer_magic());
        Ok(SorexFooter { crc32: read_u32_le(bytes, n - 8) })
    }

    /// Compute CRC32 over the given bytes
    pub fn compute_crc32(data: &[u8]) -> (c: u32)
        ensures
            c == crc32_of(data@),
    {
        crc32_digest(data)
    }
}

/// Reading the footer back from the end of anything followed by a written
/// footer gives the same checksum.
pub proof fn lemma_footer_roundtrip(content: Seq<u8>, f: SorexFooter)
    ensures
        spec_read_footer(content + spec_footer_bytes(f)) matches Ok(g) && g.crc32 == f.crc32,
{
    let b = content + spec_footer_bytes(f);
    assert(b.subrange(b.len() - 4, b.len() as int) =~= spec_footer_magic());
    assert(b.subrange(b.len() - 8, b.len() - 4) =~= spec_u32_le(f.crc32));
    lemma_u32_le_roundtrip(b, b.len() - 8, f.crc32);
}

} // verus!
