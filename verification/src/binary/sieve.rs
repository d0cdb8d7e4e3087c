//! The `.sieve` layout: its header and footer, block-PFOR packing of
//! posting deltas, and its posting lists.
//!
//! ```text
//! PFOR block (128 values):
//!   min value:      varint (frame of reference)
//!   bits per value: 1 byte (0 when all values are equal)
//!   packed bits:    16 * bits bytes, value i at bit i * bits, lowest bit first
//! ```

use vstd::prelude::*;
use vstd::slice::slice_subrange;

use crate::binary::encoding::{
    concat_map, decode_varint, decode_varint_at, encode_varint, lemma_concat_map_front, lemma_concat_map_push,
    lemma_varint_roundtrip, spec_decode_varint, spec_varint, MAX_POSTING_SIZE,
};
use crate::binary::header::{
    crc32_digest, crc32_of, lemma_u32_le_roundtrip, lemma_u32_stream_at, lemma_u32_stream_len, push_u32_le,
    read_u32_le, spec_read_u32, spec_u32_le, spec_u32_stream, FormatFlags, BLOCK_SIZE,
};
use crate::error::FormatError;

verus! {

// ============================================================================
// HEADER AND FOOTER
// ============================================================================

/// Magic bytes: "SIFT" in ASCII (header)
pub const SIEVE_MAGIC: [u8; 4] = [0x53, 0x49, 0x46, 0x54];

/// Footer magic: "TFIS" (reversed, marks valid file end)
pub const SIEVE_FOOTER_MAGIC: [u8; 4] = [0x54, 0x46, 0x49, 0x53];

/// Format version of the `.sieve` layout
pub const SIEVE_VERSION: u8 = 7;

/// The header magic as a sequence.
pub open spec fn spec_sieve_magic() -> Seq<u8> {
    seq![0x53u8, 0x49u8, 0x46u8, 0x54u8]
}

/// The footer magic as a sequence.
pub open spec fn spec_sieve_footer_magic() -> Seq<u8> {
    seq![0x54u8, 0x46u8, 0x49u8, 0x53u8]
}

/// Binary format header (52 bytes fixed size, v7)
#[derive(Debug, Clone)]
pub struct SieveHeader {
    pub version: u8,
    pub flags: FormatFlags,
    pub doc_count: u32,
    pub term_count: u32,
    pub vocab_len: u32,
    pub sa_len: u32,
    pub postings_len: u32,
    pub skip_len: u32,
    /// Section ID string table length (deep links)
    pub section_table_len: u32,
    /// Levenshtein DFA bytes length
    pub lev_dfa_len: u32,
    /// Docs binary section length
    pub docs_len: u32,
    /// Embedded WASM length
    pub wasm_len: u32,
    /// Dictionary tables length
    pub dict_table_len: u32,
}

/// The eleven 32-bit fields, in the order they are written.
pub open spec fn spec_sieve_fields(h: SieveHeader) -> Seq<u32> {
    seq![h.doc_count, h.term_count, h.vocab_len, h.sa_len, h.postings_len, h.skip_len,
        h.section_table_len, h.lev_dfa_len, h.docs_len, h.wasm_len, h.dict_table_len]
}

/// The 52 header bytes: magic, version, flags, the eleven fields, two
/// reserved zero bytes.
pub open spec fn spec_sieve_header_bytes(h: SieveHeader) -> Seq<u8> {
    spec_sieve_magic() + seq![h.version, h.flags.0] + spec_u32_stream(spec_sieve_fields(h)) + seq![0u8, 0u8]
}

/// The header that `bytes` (at least 52 long) describe.
pub open spec fn spec_sieve_header_at(bytes: Seq<u8>) -> SieveHeader {
    SieveHeader {
        version: bytes[4],
        flags: FormatFlags(bytes[5]),
        doc_count: spec_read_u32(bytes, 6),
        term_count: spec_read_u32(bytes, 10),
        vocab_len: spec_read_u32(bytes, 14),
        sa_len: spec_read_u32(bytes, 18),
        postings_len: spec_read_u32(bytes, 22),
        skip_len: spec_read_u32(bytes, 26),
        section_table_len: spec_read_u32(bytes, 30),
        lev_dfa_len: spec_read_u32(bytes, 34),
        docs_len: spec_read_u32(bytes, 38),
        wasm_len: spec_read_u32(bytes, 42),
        dict_table_len: spec_read_u32(bytes, 46),
    }
}

/// What reading a header from the start of `bytes` yields.
pub open spec fn spec_read_sieve_header(bytes: Seq<u8>) -> Result<SieveHeader, FormatError> {
    if bytes.len() < 4 {
        Err(FormatError::TruncatedHeader)
    } else if bytes.subrange(0, 4) != spec_sieve_magic() {
        Err(FormatError::InvalidMagic)
    } else if bytes.len() < 52 {
        Err(FormatError::TruncatedHeader)
    } else {
        Ok(spec_sieve_header_at(bytes))
    }
}

/// Whether two headers hold the same values.
pub open spec fn same_sieve_header(a: SieveHeader, b: SieveHeader) -> bool {
    &&& a.version == b.version
    &&& a.flags.0 == b.flags.0
    &&& spec_sieve_fields(a) == spec_sieve_fields(b)
}

impl SieveHeader {
    /// 4 (magic) + 1 (version) + 1 (flags) + 11*4 (u32s) + 2 (reserved) = 52
    pub const SIZE: usize = 52;

    /// Append the 52 header bytes.
    pub fn write(&self, buf: &mut Vec<u8>)
        ensures
            final(buf)@ == old(buf)@ + spec_sieve_header_bytes(*self),
    {
        buf.push(SIEVE_MAGIC[0]);
        buf.push(SIEVE_MAGIC[1]);
        buf.push(SIEVE_MAGIC[2]);
        buf.push(SIEVE_MAGIC[3]);
        buf.push(self.version);
        buf.push(self.flags.0);
        let fields: [u32; 11] = [self.doc_count, self.term_count, self.vocab_len, self.sa_len,
            self.postings_len, self.skip_len, self.section_table_len, self.lev_dfa_len,
            self.docs_len, self.wasm_len, self.dict_table_len];
        let ghost fs = spec_sieve_fields(*self);
        assert(fields@ =~= fs);
        let ghost mid = buf@;
        let mut i: usize = 0;
        while i < 11
            invariant
                i <= 11,
                fields@ == fs,
                buf@ == mid + spec_u32_stream(fs.take(i as int)),
            decreases 11 - i,
        {
            push_u32_le(buf, fields[i]);
            proof {
                assert(fs.take(i as int + 1) =~= fs.take(i as int).push(fs[i as int]));
                lemma_concat_map_push(fs.take(i as int), fs[i as int], |v: u32| spec_u32_le(v));
            }
            i = i + 1;
        }
        assert(fs.take(11) =~= fs);
        buf.push(0u8);
        buf.push(0u8);
        assert(final(buf)@ =~= old(buf)@ + spec_sieve_header_bytes(*self));
    }

    /// Read a header from the start of `bytes`.
    pub fn read(bytes: &[u8]) -> (r: Result<SieveHeader, FormatError>)
        ensures
            match spec_read_sieve_header(bytes@) {
                Ok(h) => r matches Ok(g) && same_sieve_header(g, h),
                Err(e) => r matches Err(x) && x == e,
            },
    {
        if bytes.len() < 4 {
            return Err(FormatError::TruncatedHeader);
        }
        if bytes[0] != SIEVE_MAGIC[0] || bytes[1] != SIEVE_MAGIC[1] || bytes[2] != SIEVE_MAGIC[2]
            || bytes[3] != SIEVE_MAGIC[3] {
            proof {
                if bytes@.subrange(0, 4) == spec_sieve_magic() {
                    assert(bytes@[0] == bytes@.subrange(0, 4)[0]);
                    assert(bytes@[1] == bytes@.subrange(0, 4)[1]);
                    assert(bytes@[2] == bytes@.subrange(0, 4)[2]);
                    assert(bytes@[3] == bytes@.subrange(0, 4)[3]);
                }
            }
            return Err(FormatError::InvalidMagic);
        }
        assert(bytes@.subrange(0, 4) =~= spec_sieve_magic());
        if bytes.len() < 52 {
            return Err(FormatError::TruncatedHeader);
        }
        let h = SieveHeader {
            version: bytes[4],
            flags: FormatFlags(bytes[5]),
            doc_count: read_u32_le(bytes, 6),
            term_count: read_u32_le(bytes, 10),
            vocab_len: read_u32_le(bytes, 14),
            sa_len: read_u32_le(bytes, 18),
            postings_len: read_u32_le(bytes, 22),
            skip_len: read_u32_le(bytes, 26),
            section_table_len: read_u32_le(bytes, 30),
            lev_dfa_len: read_u32_le(bytes, 34),
            docs_len: read_u32_le(bytes, 38),
            wasm_len: read_u32_le(bytes, 42),
            dict_table_len: read_u32_le(bytes, 46),
        };
        assert(spec_sieve_fields(h) =~= spec_sieve_fields(spec_sieve_header_at(bytes@)));
        Ok(h)
    }
}

/// Reading the bytes of a written header, followed by anything, gives back
/// the same header; a written header is 52 bytes long.
pub proof fn lemma_sieve_header_roundtrip(h: SieveHeader, rest: Seq<u8>)
    ensures
        spec_sieve_header_bytes(h).len() == 52,
        spec_read_sieve_header(spec_sieve_header_bytes(h) + rest) matches Ok(g) && same_sieve_header(g, h),
{
    let fs = spec_sieve_fields(h);
    let st = spec_u32_stream(fs);
    lemma_u32_stream_len(fs);
    let b = spec_sieve_header_bytes(h) + rest;
    assert(b.subrange(0, 4) =~= spec_sieve_magic());
    assert(b[4] == h.version);
    assert(b[5] == h.flags.0);
    assert forall|k: int| 0 <= k < 11 implies spec_read_u32(b, 6 + 4 * k) == #[trigger] fs[k] by {
        lemma_u32_stream_at(fs, k);
        assert(b.subrange(6 + 4 * k, 10 + 4 * k) =~= st.subrange(4 * k, 4 * k + 4));
        lemma_u32_le_roundtrip(b, 6 + 4 * k, fs[k]);
    }
    assert(spec_read_u32(b, 6) == fs[0]);
    assert(spec_read_u32(b, 10) == fs[1]);
    assert(spec_read_u32(b, 14) == fs[2]);
    assert(spec_read_u32(b, 18) == fs[3]);
    assert(spec_read_u32(b, 22) == fs[4]);
    assert(spec_read_u32(b, 26) == fs[5]);
    assert(spec_read_u32(b, 30) == fs[6]);
    assert(spec_read_u32(b, 34) == fs[7]);
    assert(spec_read_u32(b, 38) == fs[8]);
    assert(spec_read_u32(b, 42) == fs[9]);
    assert(spec_read_u32(b, 46) == fs[10]);
    assert(spec_sieve_fields(spec_sieve_header_at(b)) =~= fs);
}

/// Footer with CRC32 checksum and magic number
#[derive(Debug, Clone)]
pub struct SieveFooter {
    /// CRC32 checksum of header + all sections (everything before footer)
    pub crc32: u32,
}

/// The 8 bytes of a footer.
pub open spec fn spec_sieve_footer_bytes(f: SieveFooter) -> Seq<u8> {
    spec_u32_le(f.crc32) + spec_sieve_footer_magic()
}

/// What reading the footer at the end of `bytes` yields.
pub open spec fn spec_read_sieve_footer(bytes: Seq<u8>) -> Result<u32, FormatError> {
    if bytes.len() < 8 {
        Err(FormatError::FooterTooShort)
    } else if bytes.subrange(bytes.len() - 4, bytes.len() as int) != spec_sieve_footer_magic() {
        Err(FormatError::InvalidFooterMagic)
    } else {
        Ok(spec_read_u32(bytes, bytes.len() - 8))
    }
}

impl SieveFooter {
    /// 4 bytes CRC32 + 4 bytes magic
    pub const SIZE: usize = 8;

    /// Append the footer bytes.
    pub fn write(&self, buf: &mut Vec<u8>)
        ensures
            final(buf)@ == old(buf)@ + spec_sieve_footer_bytes(*self),
    {
        push_u32_le(buf, self.crc32);
        buf.push(SIEVE_FOOTER_MAGIC[0]);
        buf.push(SIEVE_FOOTER_MAGIC[1]);
        buf.push(SIEVE_FOOTER_MAGIC[2]);
        buf.push(SIEVE_FOOTER_MAGIC[3]);
        assert(final(buf)@ =~= old(buf)@ + spec_sieve_footer_bytes(*self));
    }

    /// Read the footer at the end of `bytes`.
    pub fn read(bytes: &[u8]) -> (r: Result<SieveFooter, FormatError>)
        ensures
            match spec_read_sieve_footer(bytes@) {
                Ok(c) => r matches Ok(g) && g.crc32 == c,
                Err(e) => r matches Err(x) && x == e,
            },
    {
        if bytes.len() < 8 {
            return Err(FormatError::FooterTooShort);
        }
        let n = bytes.len();
        let ghost m = bytes@.subrange(n - 4, n as int);
        if bytes[n - 4] != SIEVE_FOOTER_MAGIC[0] || bytes[n - 3] != SIEVE_FOOTER_MAGIC[1]
            || bytes[n - 2] != SIEVE_FOOTER_MAGIC[2] || bytes[n - 1] != SIEVE_FOOTER_MAGIC[3] {
            proof {
                if m == spec_sieve_footer_magic() {
                    assert(bytes@[n - 4] == m[0]);
                    assert(bytes@[n - 3] == m[1]);
                    assert(bytes@[n - 2] == m[2]);
                    assert(bytes@[n - 1] == m[3]);
                }
            }
            return Err(FormatError::InvalidFooterMagic);
        }
        assert(m =~= spec_sieve_footer_magic());
        Ok(SieveFooter { crc32: read_u32_le(bytes, n - 8) })
    }

    /// Compute CRC32 over the given bytes
    pub fn compute_crc32(data: &[u8]) -> (c: u32)
        ensures
            c == crc32_of(data@),
    {
        crc32_digest(data)
    }
}

/// Reading the footer back from the end of anything followed by a written
/// footer gives the same checksum.
pub proof fn lemma_sieve_footer_roundtrip(content: Seq<u8>, f: SieveFooter)
    ensures
        spec_read_sieve_footer(content + spec_sieve_footer_bytes(f)) == Ok::<u32, FormatError>(f.crc32),
{
    let b = content + spec_sieve_footer_bytes(f);
    assert(b.subrange(b.len() - 4, b.len() as int) =~= spec_sieve_footer_magic());
    assert(b.subrange(b.len() - 8, b.len() - 4) =~= spec_u32_le(f.crc32));
    lemma_u32_le_roundtrip(b, b.len() - 8, f.crc32);
}

// ============================================================================
// BITS
// ============================================================================

/// 2 to the power `n`.
pub open spec fn two_to(n: nat) -> nat
    decreases n,
{
    if n == 0 {
        1
    } else {
        2 * two_to((n - 1) as nat)
    }
}

/// The low `n` bits of `v`, lowest first, each 0 or 1.
pub open spec fn value_bits(v: nat, n: nat) -> Seq<u8>
    decreases n,
{
    if n == 0 {
        Seq::empty()
    } else {
        seq![(v % 2) as u8] + value_bits(v / 2, (n - 1) as nat)
    }
}

/// The number a run of bits stands for, first bit lowest.
pub open spec fn bits_value(s: Seq<u8>) -> nat
    decreases s.len(),
{
    if s.len() == 0 {
        0
    } else {
        s[0] as nat + 2 * bits_value(s.drop_first())
    }
}

/// Bytes from a bit stream, eight bits to a byte, first bit lowest (a
/// last group of fewer than eight bits is left out).
pub open spec fn pack_bits(s: Seq<u8>) -> Seq<u8>
    decreases s.len(),
{
    if s.len() < 8 {
        Seq::empty()
    } else {
        seq![bits_value(s.take(8)) as u8] + pack_bits(s.skip(8))
    }
}

/// The bit stream of some bytes, eight bits each, lowest first.
pub open spec fn unpack_bits(bytes: Seq<u8>) -> Seq<u8> {
    concat_map(bytes, |b: u8| value_bits(b as nat, 8))
}

/// Every element is a bit.
pub open spec fn all_bits(s: Seq<u8>) -> bool {
    forall|k: int| 0 <= k < s.len() ==> #[trigger] s[k] <= 1
}

/// Bits needed for `v`: none for zero, else one more than for `v / 2`.
pub open spec fn spec_bits_needed(v: nat) -> nat
    decreases v,
{
    if v == 0 {
        0
    } else {
        1 + spec_bits_needed(v / 2)
    }
}

proof fn lemma_value_bits_len(v: nat, n: nat)
    ensures
        value_bits(v, n).len() == n,
        all_bits(value_bits(v, n)),
    decreases n,
{
    if n > 0 {
        lemma_value_bits_len(v / 2, (n - 1) as nat);
        let t = value_bits(v / 2, (n - 1) as nat);
        assert forall|k: int| 0 <= k < value_bits(v, n).len() implies #[trigger] value_bits(v, n)[k] <= 1 by {
            if k > 0 {
                assert(value_bits(v, n)[k] == t[k - 1]);
            }
        }
    }
}

proof fn lemma_value_bits_value(v: nat, n: nat)
    requires
        v < two_to(n),
    ensures
        bits_value(value_bits(v, n)) == v,
    decreases n,
{
    if n > 0 {
        lemma_value_bits_value(v / 2, (n - 1) as nat);
        let s = value_bits(v, n);
        assert(s.drop_first() =~= value_bits(v / 2, (n - 1) as nat));
    } else {
        assert(value_bits(v, n) =~= Seq::<u8>::empty());
    }
}

proof fn lemma_bits_value_bits(s: Seq<u8>)
    requires
        all_bits(s),
    ensures
        value_bits(bits_value(s), s.len()) == s,
        bits_value(s) < two_to(s.len()),
    decreases s.len(),
{
    if s.len() > 0 {
        let t = s.drop_first();
        assert(all_bits(t)) by {
            assert forall|k: int| 0 <= k < t.len() implies #[trigger] t[k] <= 1 by {
                assert(t[k] == s[k + 1]);
            }
        }
        lemma_bits_value_bits(t);
        assert(s[0] <= 1);
        let v = bits_value(s);
        assert(v % 2 == s[0] as nat);
        assert(v / 2 == bits_value(t));
        assert(value_bits(v, s.len()) =~= s);
    } else {
        assert(value_bits(bits_value(s), 0) =~= s);
    }
}

proof fn lemma_bits_value_push(s: Seq<u8>, b: u8)
    ensures
        bits_value(s.push(b)) == bits_value(s) + b as nat * two_to(s.len()),
    decreases s.len(),
{
    if s.len() == 0 {
        assert(s.push(b).drop_first() =~= Seq::<u8>::empty());
        assert(bits_value(s.push(b)) == b as nat + 2 * bits_value(Seq::<u8>::empty()));
        assert(two_to(0) == 1);
        assert(b as nat * 1 == b as nat);
    } else {
        assert(s.push(b).drop_first() =~= s.drop_first().push(b));
        assert(s.push(b)[0] == s[0]);
        lemma_bits_value_push(s.drop_first(), b);
        let p = two_to((s.len() - 1) as nat);
        assert(two_to(s.len()) == 2 * p);
        assert(2 * (bits_value(s.drop_first()) + b as nat * p) == 2 * bits_value(s.drop_first()) + b as nat * (2 * p))
            by (nonlinear_arith);
    }
}

proof fn lemma_two_to_mono(a: nat, b: nat)
    requires
        a <= b,
    ensures
        two_to(a) <= two_to(b),
    decreases b,
{
    if a < b {
        lemma_two_to_mono(a, (b - 1) as nat);
    }
}

proof fn lemma_two_to_32()
    ensures
        two_to(8) == 256,
        two_to(32) == 0x1_0000_0000,
{
    reveal_with_fuel(two_to, 33);
}

proof fn lemma_bits_needed_bound(v: nat)
    ensures
        v < two_to(spec_bits_needed(v)),
    decreases v,
{
    if v > 0 {
        lemma_bits_needed_bound(v / 2);
    }
}

proof fn lemma_bits_needed_at_most(v: nat, k: nat)
    requires
        v < two_to(k),
    ensures
        spec_bits_needed(v) <= k,
    decreases v,
{
    if v > 0 {
        if k == 0 {
            assert(false);
        }
        lemma_bits_needed_at_most(v / 2, (k - 1) as nat);
    }
}

proof fn lemma_pack_append(a: Seq<u8>, b: Seq<u8>)
    requires
        a.len() % 8 == 0,
    ensures
        pack_bits(a + b) == pack_bits(a) + pack_bits(b),
    decreases a.len(),
{
    if a.len() == 0 {
        assert(a + b =~= b);
        assert(pack_bits(a) =~= Seq::<u8>::empty());
        assert(pack_bits(a) + pack_bits(b) =~= pack_bits(b));
    } else {
        assert((a + b).take(8) =~= a.take(8));
        assert((a + b).skip(8) =~= a.skip(8) + b);
        lemma_pack_append(a.skip(8), b);
        assert(pack_bits(a + b) =~= pack_bits(a) + pack_bits(b));
    }
}

proof fn lemma_pack_partial(s: Seq<u8>)
    requires
        s.len() < 8,
    ensures
        pack_bits(s) == Seq::<u8>::empty(),
{
}

proof fn lemma_pack_byte(g: Seq<u8>)
    requires
        g.len() == 8,
    ensures
        pack_bits(g) == seq![bits_value(g) as u8],
{
    assert(g.take(8) =~= g);
    assert(pack_bits(g.skip(8)) =~= Seq::<u8>::empty());
    assert(pack_bits(g) =~= seq![bits_value(g) as u8]);
}

proof fn lemma_pack_len(s: Seq<u8>)
    ensures
        pack_bits(s).len() == s.len() / 8,
    decreases s.len(),
{
    if s.len() >= 8 {
        lemma_pack_len(s.skip(8));
    }
}

proof fn lemma_unpack_pack(s: Seq<u8>)
    requires
        s.len() % 8 == 0,
        all_bits(s),
    ensures
        unpack_bits(pack_bits(s)) == s,
    decreases s.len(),
{
    let f = |b: u8| value_bits(b as nat, 8);
    if s.len() == 0 {
        assert(pack_bits(s) =~= Seq::<u8>::empty());
        assert(unpack_bits(pack_bits(s)) =~= s);
    } else {
        let g = s.take(8);
        let t = s.skip(8);
        assert(all_bits(g)) by {
            assert forall|k: int| 0 <= k < g.len() implies #[trigger] g[k] <= 1 by {
                assert(g[k] == s[k]);
            }
        }
        assert(all_bits(t)) by {
            assert forall|k: int| 0 <= k < t.len() implies #[trigger] t[k] <= 1 by {
                assert(t[k] == s[k + 8]);
            }
        }
        lemma_unpack_pack(t);
        lemma_bits_value_bits(g);
        lemma_two_to_32();
        let p = pack_bits(s);
        assert(p.len() > 0);
        lemma_concat_map_front(p, f);
        assert(p[0] == bits_value(g) as u8);
        assert(p.drop_first() =~= pack_bits(t));
        assert(f(p[0]) == g);
        assert(g + t =~= s);
    }
}

/// The bit stream of values, `n` bits each.
pub open spec fn values_stream(vals: Seq<u32>, n: nat) -> Seq<u8> {
    concat_map(vals, |v: u32| value_bits(v as nat, n))
}

proof fn lemma_values_stream(vals: Seq<u32>, n: nat)
    ensures
        values_stream(vals, n).len() == vals.len() * n,
        all_bits(values_stream(vals, n)),
        forall|i: int| 0 <= i < vals.len() ==> #[trigger] values_stream(vals, n).subrange(i * n, i * n + n) == value_bits(vals[i] as nat, n),
    decreases vals.len(),
{
    let f = |v: u32| value_bits(v as nat, n);
    if vals.len() > 0 {
        let init = vals.drop_last();
        lemma_values_stream(init, n);
        let a = values_stream(init, n);
        let last = value_bits(vals.last() as nat, n);
        lemma_value_bits_len(vals.last() as nat, n);
        assert(values_stream(vals, n) == a + last);
        assert((vals.len() - 1) * n + n == vals.len() * n) by (nonlinear_arith);
        assert forall|k: int| 0 <= k < (a + last).len() implies #[trigger] (a + last)[k] <= 1 by {
            if k < a.len() {
                assert((a + last)[k] == a[k]);
            } else {
                assert((a + last)[k] == last[k - a.len()]);
            }
        }
        assert forall|i: int| 0 <= i < vals.len() implies #[trigger] values_stream(vals, n).subrange(i * n, i * n + n)
            == value_bits(vals[i] as nat, n) by {
            if i < vals.len() - 1 {
                assert(i * n + n <= (vals.len() - 1) * n) by (nonlinear_arith)
                    requires i < vals.len() - 1, n >= 0;
                assert(0 <= i * n) by (nonlinear_arith)
                    requires i >= 0, n >= 0;
                assert(init[i] == vals[i]);
                assert((a + last).subrange(i * n, i * n + n) =~= a.subrange(i * n, i * n + n));
            } else {
                assert(i * n == a.len());
                assert((a + last).subrange(i * n, i * n + n) =~= last);
            }
        }
    } else {
        assert(values_stream(vals, n) =~= Seq::<u8>::empty());
    }
}

// ============================================================================
// BLOCK PFOR
// ============================================================================

/// The smallest value (zero when there is none).
pub open spec fn seq_min(s: Seq<u32>) -> u32
    decreases s.len(),
{
    if s.len() == 0 {
        0
    } else if s.len() == 1 {
        s[0]
    } else if s.last() < seq_min(s.drop_last()) {
        s.last()
    } else {
        seq_min(s.drop_last())
    }
}

/// The largest value (zero when there is none).
pub open spec fn seq_max(s: Seq<u32>) -> u32
    decreases s.len(),
{
    if s.len() == 0 {
        0
    } else if s.len() == 1 {
        s[0]
    } else if s.last() > seq_max(s.drop_last()) {
        s.last()
    } else {
        seq_max(s.drop_last())
    }
}

proof fn lemma_seq_min_max(s: Seq<u32>)
    ensures
        forall|i: int| 0 <= i < s.len() ==> seq_min(s) <= #[trigger] s[i] <= seq_max(s),
    decreases s.len(),
{
    if s.len() > 1 {
        lemma_seq_min_max(s.drop_last());
        assert forall|i: int| 0 <= i < s.len() implies seq_min(s) <= #[trigger] s[i] <= seq_max(s) by {
            if i < s.len() - 1 {
                assert(s[i] == s.drop_last()[i]);
            }
        }
    }
}

/// Each value less the smallest one.
pub open spec fn pfor_adjusted(d: Seq<u32>) -> Seq<u32> {
    Seq::new(d.len(), |i: int| (d[i] - seq_min(d)) as u32)
}

/// Bits per value in a block: enough for the largest adjusted value.
pub open spec fn pfor_bits(d: Seq<u32>) -> nat {
    spec_bits_needed(seq_max(pfor_adjusted(d)) as nat)
}

/// A PFOR block: the smallest value, the bit width, then every adjusted
/// value packed at that width.
pub open spec fn spec_encode_block_pfor(d: Seq<u32>) -> Seq<u8> {
    spec_varint(seq_min(d) as u64) + seq![pfor_bits(d) as u8] + pack_bits(values_stream(pfor_adjusted(d), pfor_bits(d)))
}

/// Bits needed to represent `max_value`.
fn bits_needed(max_value: u32) -> (b: u8)
    ensures
        b == spec_bits_needed(max_value as nat),
        b <= 32,
{
    proof {
        lemma_two_to_32();
        lemma_bits_needed_at_most(max_value as nat, 32);
    }
    let mut v = max_value;
    let mut b: u8 = 0;
    while v > 0
        invariant
            spec_bits_needed(max_value as nat) == b + spec_bits_needed(v as nat),
            spec_bits_needed(max_value as nat) <= 32,
        decreases v,
    {
        v = v / 2;
        b = b + 1;
    }
    b
}

/// Encode a block of 128 deltas using PFOR
pub fn encode_block_pfor(deltas: &[u32; BLOCK_SIZE], buf: &mut Vec<u8>)
    ensures
        final(buf)@ == old(buf)@ + spec_encode_block_pfor(deltas@),
{
    pack_block(deltas.as_slice(), buf);
}

/// Encode the 128 values of `d` as a PFOR block.
fn pack_block(d: &[u32], buf: &mut Vec<u8>)
    requires
        d@.len() == 128,
    ensures
        final(buf)@ == old(buf)@ + spec_encode_block_pfor(d@),
{
    let ghost ds = d@;
    assert(ds.len() == 128);
    let mut min_delta: u32 = d[0];
    let mut i: usize = 1;
    while i < d.len()
        invariant
            1 <= i <= ds.len(),
            ds == d@,
            ds.len() == 128,
            min_delta == seq_min(ds.take(i as int)),
        decreases ds.len() - i,
    {
        assert(ds.take(i + 1).drop_last() =~= ds.take(i as int));
        if d[i] < min_delta {
            min_delta = d[i];
        }
        i = i + 1;
    }
    assert(ds.take(128) =~= ds);
    proof {
        lemma_seq_min_max(ds);
    }
    let ghost adj = pfor_adjusted(ds);
    let mut adjusted: Vec<u32> = Vec::new();
    let mut k: usize = 0;
    while k < d.len()
        invariant
            k <= ds.len(),
            ds == d@,
            ds.len() == 128,
            min_delta == seq_min(ds),
            forall|j: int| 0 <= j < ds.len() ==> min_delta <= #[trigger] ds[j],
            adj == pfor_adjusted(ds),
            adjusted@ == adj.take(k as int),
        decreases ds.len() - k,
    {
        assert(min_delta <= ds[k as int]);
        adjusted.push(d[k] - min_delta);
        assert(adjusted@ =~= adj.take(k + 1));
        k = k + 1;
    }
    assert(adj.take(128) =~= adj);
    let mut max_adjusted: u32 = adjusted[0];
    let mut m: usize = 1;
    while m < adjusted.len()
        invariant
            1 <= m <= adj.len(),
            adjusted@ == adj,
            adj.len() == 128,
            max_adjusted == seq_max(adj.take(m as int)),
        decreases adj.len() - m,
    {
        assert(adj.take(m + 1).drop_last() =~= adj.take(m as int));
        if adjusted[m] > max_adjusted {
            max_adjusted = adjusted[m];
        }
        m = m + 1;
    }
    assert(adj.take(128) =~= adj);

    let bits = bits_needed(max_adjusted);
    let ghost nb = bits as nat;
    assert(nb == pfor_bits(ds));

    encode_varint(min_delta as u64, buf);
    buf.push(bits);
    let ghost prefix = buf@;
    assert(prefix == old(buf)@ + spec_varint(seq_min(ds) as u64) + seq![pfor_bits(ds) as u8]);

    if bits == 0 {
        proof {
            lemma_values_stream(adj, 0);
            assert(values_stream(adj, 0).len() == 0) by (nonlinear_arith)
                requires values_stream(adj, 0).len() == adj.len() * 0;
            lemma_pack_partial(values_stream(adj, 0));
            assert(buf@ =~= old(buf)@ + spec_encode_block_pfor(ds));
        }
        return;
    }

    // Pack the values bit by bit: a byte is pushed once eight bits are in.
    let ghost f = |v: u32| value_bits(v as nat, nb);
    let ghost mut emitted: Seq<u8> = Seq::empty();
    let mut acc: u32 = 0;
    let mut weight: u32 = 1;
    let mut nbits: usize = 0;
    let mut i: usize = 0;
    while i < adjusted.len()
        invariant
            i <= adj.len(),
            adjusted@ == adj,
            adj.len() == 128,
            1 <= nb <= 32,
            nb == bits as nat,
            f == (|v: u32| value_bits(v as nat, nb)),
            emitted == concat_map(adj.take(i as int), f),
            nbits < 8,
            nbits <= emitted.len(),
            (emitted.len() - nbits) % 8 == 0,
            weight == two_to(nbits as nat),
            acc < weight,
            acc == bits_value(emitted.skip(emitted.len() - nbits)),
            buf@ == prefix + pack_bits(emitted.take(emitted.len() - nbits)),
        decreases adj.len() - i,
    {
        let mut v = adjusted[i];
        let mut r: u8 = 0;
        proof {
            lemma_value_bits_len(adj[i as int] as nat, nb);
            assert(concat_map(adj.take(i + 1), f) == concat_map(adj.take(i as int), f) + f(adj[i as int])) by {
                assert(adj.take(i + 1).drop_last() =~= adj.take(i as int));
            }
            assert(emitted + value_bits(v as nat, nb) == concat_map(adj.take(i + 1), f));
        }
        while r < bits
            invariant
                r <= bits,
                1 <= nb <= 32,
                nb == bits as nat,
                i < adj.len(),
                f == (|v: u32| value_bits(v as nat, nb)),
                emitted + value_bits(v as nat, (nb - r) as nat) == concat_map(adj.take(i + 1), f),
                nbits < 8,
                nbits <= emitted.len(),
                (emitted.len() - nbits) % 8 == 0,
                weight == two_to(nbits as nat),
                acc < weight,
                acc == bits_value(emitted.skip(emitted.len() - nbits)),
                buf@ == prefix + pack_bits(emitted.take(emitted.len() - nbits)),
            decreases bits - r,
        {
            let bit = v % 2;
            let ghost old_emitted = emitted;
            let ghost part = emitted.skip(emitted.len() - nbits);
            proof {
                assert(value_bits(v as nat, (nb - r) as nat) == seq![(v % 2) as u8] + value_bits((v / 2) as nat, (nb - r - 1) as nat));
                emitted = emitted.push(bit as u8);
                assert(old_emitted + value_bits(v as nat, (nb - r) as nat) =~= emitted + value_bits((v / 2) as nat, (nb - r - 1) as nat));
                assert(emitted.skip(emitted.len() - (nbits + 1)) =~= part.push(bit as u8));
                assert(emitted.take(emitted.len() - (nbits + 1)) =~= old_emitted.take(old_emitted.len() - nbits));
                lemma_bits_value_push(part, bit as u8);
                assert(part.len() == nbits);
                lemma_two_to_32();
                lemma_two_to_mono((nbits + 1) as nat, 8);
                assert(two_to((nbits + 1) as nat) == 2 * weight);
                assert(bit < 2);
                assert((bit as u8) as nat == bit as nat);
                if bit == 1 {
                    assert(1 * two_to(nbits as nat) == weight);
                } else {
                    assert(0 * two_to(nbits as nat) == 0);
                }
            }
            if bit == 1 {
                acc = acc + weight;
            }
            weight = weight * 2;
            nbits = nbits + 1;
            v = v / 2;
            if nbits == 8 {
                let ghost full_before = emitted.take(emitted.len() - 8);
                let ghost group = emitted.skip(emitted.len() - 8);
                proof {
                    assert(full_before + group =~= emitted);
                    lemma_pack_append(full_before, group);
                    lemma_pack_byte(group);
                    assert(emitted.take(emitted.len() - 0) =~= emitted);
                    assert(emitted.skip(emitted.len() - 0) =~= Seq::<u8>::empty());
                }
                buf.push(acc as u8);
                acc = 0;
                weight = 1;
                nbits = 0;
            }
            r = r + 1;
        }
        i = i + 1;
    }
    proof {
        assert(adj.take(128) =~= adj);
        lemma_values_stream(adj, nb);
        assert(emitted == values_stream(adj, nb));
        assert(emitted.len() == 128 * nb);
        assert(nbits == 0);
        assert(emitted.take(emitted.len() as int) =~= emitted);
        assert(buf@ =~= old(buf)@ + spec_encode_block_pfor(ds));
    }
}

proof fn lemma_unpack_len(bytes: Seq<u8>)
    ensures
        unpack_bits(bytes).len() == 8 * bytes.len(),
        all_bits(unpack_bits(bytes)),
    decreases bytes.len(),
{
    if bytes.len() > 0 {
        let init = bytes.drop_last();
        lemma_unpack_len(init);
        lemma_value_bits_len(bytes.last() as nat, 8);
        let a = unpack_bits(init);
        let l = value_bits(bytes.last() as nat, 8);
        assert(unpack_bits(bytes) == a + l);
        assert forall|k: int| 0 <= k < (a + l).len() implies #[trigger] (a + l)[k] <= 1 by {
            if k < a.len() {
                assert((a + l)[k] == a[k]);
            } else {
                assert((a + l)[k] == l[k - a.len()]);
            }
        }
    } else {
        assert(unpack_bits(bytes) =~= Seq::<u8>::empty());
    }
}

proof fn lemma_unpack_front(bytes: Seq<u8>, j: int)
    requires
        0 <= j < bytes.len(),
    ensures
        unpack_bits(bytes.skip(j)) == value_bits(bytes[j] as nat, 8) + unpack_bits(bytes.skip(j + 1)),
{
    let s = bytes.skip(j);
    lemma_concat_map_front(s, |b: u8| value_bits(b as nat, 8));
    assert(s.drop_first() =~= bytes.skip(j + 1));
}

/// Value `i` of a packed block: the smallest value plus the `bits`-bit
/// number at bit `i * bits` of the stream.
pub open spec fn pfor_value(stream: Seq<u8>, bits: nat, min: u32, i: int) -> int {
    min + bits_value(stream.subrange(i * bits, i * bits + bits))
}

/// What decoding a PFOR block yields: the 128 values and the bytes used.
pub open spec fn spec_decode_block_pfor(bytes: Seq<u8>) -> Result<(Seq<u32>, nat), FormatError> {
    match spec_decode_varint(bytes) {
        Err(e) => Err(e),
        Ok((m64, vl)) => {
            let m = m64 as u32;
            if vl >= bytes.len() {
                Err(FormatError::TruncatedPforBlock)
            } else {
                let bits = bytes[vl as int];
                let pos = vl + 1;
                if bits > 32 {
                    Err(FormatError::InvalidBitsPerValue)
                } else if bits == 0 {
                    Ok((Seq::new(128, |i: int| m), pos))
                } else if pos + 16 * bits > bytes.len() {
                    Err(FormatError::TruncatedPforData)
                } else {
                    let stream = unpack_bits(bytes.subrange(pos as int, pos + 16 * bits));
                    if exists|i: int| 0 <= i < 128 && #[trigger] pfor_value(stream, bits as nat, m, i) > u32::MAX {
                        Err(FormatError::PforValueOverflow)
                    } else {
                        Ok((Seq::new(128, |i: int| pfor_value(stream, bits as nat, m, i) as u32), (pos + 16 * bits) as nat))
                    }
                }
            }
        },
    }
}

/// Decode a block of 128 deltas from PFOR
pub fn decode_block_pfor(bytes: &[u8]) -> (r: Result<(Vec<u32>, usize), FormatError>)
    ensures
        r matches Ok((v, n)) ==> spec_decode_block_pfor(bytes@) == Ok::<(Seq<u32>, nat), FormatError>((v@, n as nat)),
        r matches Err(e) ==> spec_decode_block_pfor(bytes@) == Err::<(Seq<u32>, nat), FormatError>(e),
        r matches Ok((_, n)) ==> n <= bytes@.len(),
{
    let (m64, vl) = match decode_varint(bytes) {
        Ok(x) => x,
        Err(e) => return Err(e),
    };
    let min_delta = m64 as u32;
    let mut pos = vl;
    if pos >= bytes.len() {
        return Err(FormatError::TruncatedPforBlock);
    }
    let bits = bytes[pos];
    pos = pos + 1;
    if bits > 32 {
        return Err(FormatError::InvalidBitsPerValue);
    }
    if bits == 0 {
        let mut same: Vec<u32> = Vec::new();
        let mut k: usize = 0;
        while k < BLOCK_SIZE
            invariant
                k <= 128,
                same@ == Seq::new(k as nat, |i: int| min_delta),
            decreases 128 - k,
        {
            same.push(min_delta);
            assert(same@ =~= Seq::new((k + 1) as nat, |i: int| min_delta));
            k = k + 1;
        }
        return Ok((same, pos));
    }
    let bytes_needed: usize = 16 * (bits as usize);
    if bytes_needed > bytes.len() - pos {
        return Err(FormatError::TruncatedPforData);
    }
    let data = slice_subrange(bytes, pos, pos + bytes_needed);
    let ghost nb = bits as nat;
    assert(data@ == bytes@.subrange(pos as int, pos + 16 * bits));
    let ghost stream = unpack_bits(data@);
    proof {
        lemma_unpack_len(data@);
        assert(stream.skip(0) =~= stream);
        assert(data@.skip(0) =~= data@);
        assert(value_bits(0, 0) =~= Seq::<u8>::empty());
        assert(stream.skip(0) =~= value_bits(0, 0) + unpack_bits(data@.skip(0)));
        assert(8 * bytes_needed == 128 * nb);
    }
    let mut result: Vec<u32> = Vec::new();
    let mut jn: usize = 0;
    let mut cur: u32 = 0;
    let mut avail: usize = 0;
    let ghost mut q: int = 0;
    let mut i: usize = 0;
    while i < BLOCK_SIZE
        invariant
            i <= 128,
            1 <= nb <= 32,
            nb == bits as nat,
            data@.len() == bytes_needed,
            stream == unpack_bits(data@),
            stream.len() == 128 * nb,
            all_bits(stream),
            q == i * nb,
            0 <= q,
            spec_decode_varint(bytes@) == Ok::<(u64, nat), FormatError>((m64, vl as nat)),
            vl < bytes@.len(),
            bytes@[vl as int] == bits,
            pos == vl + 1,
            min_delta == m64 as u32,
            data@ == bytes@.subrange(pos as int, pos + 16 * bits),
            pos + bytes_needed <= bytes@.len(),
            bytes_needed == 16 * bits,
            q == 8 * jn - avail,
            avail <= 8,
            jn <= bytes_needed,
            stream.skip(q) == value_bits(cur as nat, avail as nat) + unpack_bits(data@.skip(jn as int)),
            result@.len() == i,
            forall|k: int| 0 <= k < i ==> #[trigger] pfor_value(stream, nb, min_delta, k) <= u32::MAX,
            forall|k: int| 0 <= k < i ==> #[trigger] result@[k] == pfor_value(stream, nb, min_delta, k) as u32,
        decreases 128 - i,
    {
        let mut val: u64 = 0;
        let mut w: u64 = 1;
        let mut r: u8 = 0;
        let ghost start = q;
        proof {
            assert(i * nb + nb <= 128 * nb) by (nonlinear_arith)
                requires i < 128, nb >= 1;
            assert(0 <= i * nb) by (nonlinear_arith)
                requires nb >= 1;
            assert(stream.subrange(start, q) =~= Seq::<u8>::empty());
        }
        while r < bits
            invariant
                r <= bits,
                1 <= nb <= 32,
                nb == bits as nat,
                data@.len() == bytes_needed,
                stream == unpack_bits(data@),
                stream.len() == 128 * nb,
                all_bits(stream),
                start + nb <= stream.len(),
                0 <= start,
                start == i * nb,
                q == start + r,
                q == 8 * jn - avail,
                avail <= 8,
                jn <= bytes_needed,
                stream.skip(q) == value_bits(cur as nat, avail as nat) + unpack_bits(data@.skip(jn as int)),
                w == two_to(r as nat),
                val < w,
                val == bits_value(stream.subrange(start, q)),
            decreases bits - r,
        {
            if avail == 0 {
                proof {
                    lemma_unpack_front(data@, jn as int);
                    assert(value_bits(cur as nat, 0) =~= Seq::<u8>::empty());
                    assert(stream.skip(q) =~= unpack_bits(data@.skip(jn as int)));
                }
                cur = data[jn] as u32;
                jn = jn + 1;
                avail = 8;
            }
            let bit = cur % 2;
            proof {
                let rest = unpack_bits(data@.skip(jn as int));
                assert(value_bits(cur as nat, avail as nat) == seq![(cur % 2) as u8] + value_bits((cur / 2) as nat, (avail - 1) as nat));
                assert(stream[q] == stream.skip(q)[0]);
                assert(stream.skip(q + 1) =~= value_bits((cur / 2) as nat, (avail - 1) as nat) + rest) by {
                    assert(stream.skip(q + 1) =~= stream.skip(q).drop_first());
                }
                assert(stream.subrange(start, q + 1) =~= stream.subrange(start, q).push(stream[q]));
                lemma_bits_value_push(stream.subrange(start, q), stream[q]);
                assert(stream[q] as nat == bit as nat);
                if bit == 1 {
                    assert(1 * two_to(r as nat) == w);
                } else {
                    assert(0 * two_to(r as nat) == 0);
                }
                lemma_two_to_32();
                lemma_two_to_mono((r + 1) as nat, 32);
            }
            cur = cur / 2;
            avail = avail - 1;
            if bit == 1 {
                val = val + w;
            }
            w = w * 2;
            r = r + 1;
            proof {
                q = q + 1;
            }
        }
        proof {
            assert(q == i * nb + nb);
            assert((i + 1) * nb == i * nb + nb) by (nonlinear_arith);
            lemma_two_to_32();
            lemma_two_to_mono(nb, 32);
        }
        let value = (min_delta as u64) + val;
        assert(value == pfor_value(stream, nb, min_delta, i as int));
        if value > 4294967295u64 {
            proof {
                assert(pfor_value(stream, nb, min_delta, i as int) > u32::MAX);
                let sb = bytes@;
                assert(spec_decode_varint(sb) == Ok::<(u64, nat), FormatError>((m64, vl as nat)));
                assert(sb[vl as int] == bits);
                let sstream = unpack_bits(sb.subrange((vl + 1) as int, (vl + 1) + 16 * sb[vl as int]));
                assert(sstream == stream);
                assert(pfor_value(sstream, sb[vl as int] as nat, m64 as u32, i as int) > u32::MAX);
                assert(!(vl >= sb.len()));
                assert(!(sb[vl as int] > 32));
                assert(sb[vl as int] != 0);
                assert(!((vl + 1) + 16 * sb[vl as int] > sb.len()));
                assert(exists|k: int| 0 <= k < 128 && #[trigger] pfor_value(sstream, sb[vl as int] as nat, m64 as u32, k) > u32::MAX);
                assert(spec_decode_block_pfor(bytes@) == Err::<(Seq<u32>, nat), FormatError>(FormatError::PforValueOverflow));
            }
            return Err(FormatError::PforValueOverflow);
        }
        result.push(value as u32);
        i = i + 1;
    }
    proof {
        assert(result@ =~= Seq::new(128, |k: int| pfor_value(stream, nb, min_delta, k) as u32));
        assert(!exists|k: int| 0 <= k < 128 && #[trigger] pfor_value(stream, nb, min_delta, k) > u32::MAX);
    }
    Ok((result, pos + bytes_needed))
}

/// Decoding an encoded block, whatever bytes follow it, gives back its 128
/// values and the length of its encoding.
pub proof fn lemma_block_pfor_roundtrip(d: Seq<u32>, rest: Seq<u8>)
    requires
        d.len() == 128,
    ensures
        spec_decode_block_pfor(spec_encode_block_pfor(d) + rest) == Ok::<(Seq<u32>, nat), FormatError>(
            (d, spec_encode_block_pfor(d).len())),
{
    let m = seq_min(d);
    let adj = pfor_adjusted(d);
    let mx = seq_max(adj);
    let nb = pfor_bits(d);
    let stream = values_stream(adj, nb);
    let packed = pack_bits(stream);
    let v = spec_varint(m as u64);
    let enc = spec_encode_block_pfor(d);
    let b = enc + rest;
    lemma_seq_min_max(d);
    lemma_seq_min_max(adj);
    lemma_two_to_32();
    lemma_bits_needed_at_most(mx as nat, 32);
    lemma_bits_needed_bound(mx as nat);
    lemma_values_stream(adj, nb);
    lemma_pack_len(stream);
    assert(enc == v + (seq![nb as u8] + packed));
    assert(b =~= v + (seq![nb as u8] + packed + rest));
    lemma_varint_roundtrip(m as u64, seq![nb as u8] + packed + rest);
    let vl = v.len();
    assert(b[vl as int] == nb as u8);
    assert((m as u64) as u32 == m);
    if nb == 0 {
        assert(mx == 0);
        assert(stream.len() == 0) by (nonlinear_arith)
            requires stream.len() == adj.len() * nb, nb == 0;
        assert(Seq::new(128, |i: int| m) =~= d) by {
            assert forall|i: int| 0 <= i < 128 implies d[i] == m by {
                assert(adj[i] <= mx);
            }
        }
    } else {
        assert(stream.len() == 128 * nb);
        assert(packed.len() == 16 * nb);
        let pos = vl + 1;
        assert(b.subrange(pos as int, (pos + 16 * nb) as int) =~= packed);
        lemma_unpack_pack(stream);
        assert forall|i: int| 0 <= i < 128 implies #[trigger] pfor_value(stream, nb, m, i) == d[i] as int by {
            assert(adj[i] <= mx);
            lemma_two_to_mono(spec_bits_needed(mx as nat), nb);
            lemma_value_bits_value(adj[i] as nat, nb);
            assert(adj[i] == (d[i] - m) as u32);
        }
        assert(!exists|i: int| 0 <= i < 128 && #[trigger] pfor_value(stream, nb, m, i) > u32::MAX);
        assert(Seq::new(128, |i: int| pfor_value(stream, nb, m, i) as u32) =~= d);
    }
}

// ============================================================================
// POSTINGS
// ============================================================================

/// Posting entry with doc_id and optional section_id index
#[derive(Debug, Clone, Copy, PartialEq, Eq, Structural)]
pub struct PostingEntry {
    pub doc_id: u32,
    /// Index into section table (0 = no section_id, 1+ = table index + 1)
    pub section_idx: u32,
}

/// Doc ids never decrease.
pub open spec fn ids_sorted(ids: Seq<u32>) -> bool {
    forall|i: int, j: int| 0 <= i <= j < ids.len() ==> ids[i] <= ids[j]
}

/// The doc id before position `a` (zero before the first).
pub open spec fn prev_id(ids: Seq<u32>, a: int) -> u32 {
    if a <= 0 { 0 } else { ids[a - 1] }
}

/// Each doc id less the one before it (the first less zero).
pub open spec fn spec_deltas(ids: Seq<u32>) -> Seq<u32> {
    Seq::new(ids.len(), |i: int| (ids[i] - prev_id(ids, i)) as u32)
}

/// The full blocks of 128 deltas.
pub open spec fn spec_blocks(ds: Seq<u32>) -> Seq<Seq<u32>> {
    Seq::new(ds.len() / 128, |k: int| ds.subrange(128 * k, 128 * k + 128))
}

/// The doc-id part of a posting list: the block count, each block PFOR
/// packed, the count of the rest, and the rest as varints.
pub open spec fn spec_encode_doc_deltas(ids: Seq<u32>) -> Seq<u8> {
    let ds = spec_deltas(ids);
    let nbk = ds.len() / 128;
    spec_varint(nbk as u64) + concat_map(spec_blocks(ds), |b: Seq<u32>| spec_encode_block_pfor(b))
        + spec_varint((ds.len() - 128 * nbk) as u64) + concat_map(ds.skip((128 * nbk) as int), |d: u32| spec_varint(d as u64))
}

/// A posting list of doc ids: the count, then (when there are any) their deltas.
pub open spec fn spec_encode_postings_ids(ids: Seq<u32>) -> Seq<u8> {
    spec_varint(ids.len() as u64) + if ids.len() == 0 {
        Seq::<u8>::empty()
    } else {
        spec_encode_doc_deltas(ids)
    }
}

/// The doc ids of posting entries.
pub open spec fn entry_ids(entries: Seq<PostingEntry>) -> Seq<u32> {
    entries.map_values(|e: PostingEntry| e.doc_id)
}

/// A posting list with section indices: the count, the doc-id deltas, then
/// each entry's section index as a varint.
pub open spec fn spec_encode_postings_v6(entries: Seq<PostingEntry>) -> Seq<u8> {
    spec_varint(entries.len() as u64) + if entries.len() == 0 {
        Seq::<u8>::empty()
    } else {
        spec_encode_doc_deltas(entry_ids(entries)) + concat_map(entries, |e: PostingEntry| spec_varint(e.section_idx as u64))
    }
}

/// Each doc id less the one before it.
fn compute_deltas(doc_ids: &[u32]) -> (deltas: Vec<u32>)
    requires
        ids_sorted(doc_ids@),
    ensures
        deltas@ == spec_deltas(doc_ids@),
{
    let ghost ids = doc_ids@;
    let ghost ds = spec_deltas(ids);
    let mut deltas: Vec<u32> = Vec::new();
    let mut prev: u32 = 0;
    let mut i: usize = 0;
    while i < doc_ids.len()
        invariant
            i <= ids.len(),
            ids == doc_ids@,
            ids_sorted(ids),
            ds == spec_deltas(ids),
            prev == prev_id(ids, i as int),
            deltas@ == ds.take(i as int),
        decreases ids.len() - i,
    {
        let doc_id = doc_ids[i];
        deltas.push(doc_id - prev);
        assert(deltas@ =~= ds.take(i + 1));
        prev = doc_id;
        i = i + 1;
    }
    assert(ds.take(ids.len() as int) =~= ds);
    deltas
}

/// Write the full blocks of 128 deltas, PFOR packed.
fn write_blocks(deltas: &Vec<u32>, num_blocks: usize, buf: &mut Vec<u8>)
    requires
        num_blocks == deltas@.len() / 128,
    ensures
        final(buf)@ == old(buf)@ + concat_map(spec_blocks(deltas@), |x: Seq<u32>| spec_encode_block_pfor(x)),
{
    let ghost ds = deltas@;
    let ghost head = buf@;
    let ghost blocks = spec_blocks(ds);
    let mut b: usize = 0;
    while b < num_blocks
        invariant
            b <= num_blocks,
            num_blocks == ds.len() / 128,
            deltas@ == ds,
            blocks == spec_blocks(ds),
            head == old(buf)@,
            buf@ == head + concat_map(blocks.take(b as int), |x: Seq<u32>| spec_encode_block_pfor(x)),
        decreases num_blocks - b,
    {
        assert(b * 128 + 128 <= ds.len()) by (nonlinear_arith)
            requires b < num_blocks, num_blocks == ds.len() / 128;
        assert(ds.len() == deltas.len());
        let start = b * BLOCK_SIZE;
        let block = slice_subrange(deltas.as_slice(), start, start + BLOCK_SIZE);
        pack_block(block, buf);
        proof {
            assert(blocks[b as int] == block@);
            assert(blocks.take(b + 1) =~= blocks.take(b as int).push(blocks[b as int]));
            lemma_concat_map_push(blocks.take(b as int), blocks[b as int], |x: Seq<u32>| spec_encode_block_pfor(x));
        }
        b = b + 1;
    }
    assert(blocks.take(num_blocks as int) =~= blocks);
}

/// Write the deltas from `tail_start` on as varints.
fn write_tail(deltas: &Vec<u32>, tail_start: usize, buf: &mut Vec<u8>)
    requires
        tail_start <= deltas@.len(),
    ensures
        final(buf)@ == old(buf)@ + concat_map(deltas@.skip(tail_start as int), |d: u32| spec_varint(d as u64)),
{
    let ghost ds = deltas@;
    let ghost mid = buf@;
    let ghost tail = ds.skip(tail_start as int);
    let mut t: usize = tail_start;
    while t < deltas.len()
        invariant
            tail_start <= t <= ds.len(),
            deltas@ == ds,
            tail == ds.skip(tail_start as int),
            mid == old(buf)@,
            buf@ == mid + concat_map(tail.take(t - tail_start), |d: u32| spec_varint(d as u64)),
        decreases ds.len() - t,
    {
        encode_varint(deltas[t] as u64, buf);
        proof {
            assert(tail.take(t + 1 - tail_start) =~= tail.take(t - tail_start).push(ds[t as int]));
            lemma_concat_map_push(tail.take(t - tail_start), ds[t as int], |d: u32| spec_varint(d as u64));
        }
        t = t + 1;
    }
    assert(tail.take(ds.len() - tail_start) =~= tail);
}

/// Write the deltas of non-decreasing doc ids: full blocks PFOR packed,
/// the rest as varints.
fn encode_doc_deltas(doc_ids: &[u32], buf: &mut Vec<u8>)
    requires
        ids_sorted(doc_ids@),
    ensures
        final(buf)@ == old(buf)@ + spec_encode_doc_deltas(doc_ids@),
{
    let deltas = compute_deltas(doc_ids);
    let num_blocks = deltas.len() / BLOCK_SIZE;
    encode_varint(num_blocks as u64, buf);
    write_blocks(&deltas, num_blocks, buf);
    let tail_start = num_blocks * BLOCK_SIZE;
    let tail_count = deltas.len() - tail_start;
    encode_varint(tail_count as u64, buf);
    write_tail(&deltas, tail_start, buf);
    assert(buf@ =~= old(buf)@ + spec_encode_doc_deltas(doc_ids@));
}

/// Encode posting list with block PFOR (doc_ids only)
pub fn encode_postings(doc_ids: &[u32], buf: &mut Vec<u8>)
    requires
        ids_sorted(doc_ids@),
    ensures
        final(buf)@ == old(buf)@ + spec_encode_postings_ids(doc_ids@),
{
    encode_varint(doc_ids.len() as u64, buf);
    if doc_ids.len() == 0 {
        assert(buf@ =~= old(buf)@ + spec_encode_postings_ids(doc_ids@));
        return;
    }
    encode_doc_deltas(doc_ids, buf);
    assert(buf@ =~= old(buf)@ + spec_encode_postings_ids(doc_ids@));
}

/// Encode posting list with block PFOR (v6: includes section_id indices)
pub fn encode_postings_v6(entries: &[PostingEntry], buf: &mut Vec<u8>)
    requires
        ids_sorted(entry_ids(entries@)),
    ensures
        final(buf)@ == old(buf)@ + spec_encode_postings_v6(entries@),
{
    let doc_freq = entries.len();
    encode_varint(doc_freq as u64, buf);
    if doc_freq == 0 {
        assert(buf@ =~= old(buf)@ + spec_encode_postings_v6(entries@));
        return;
    }
    let mut doc_ids: Vec<u32> = Vec::new();
    let mut i: usize = 0;
    while i < entries.len()
        invariant
            i <= entries@.len(),
            doc_ids@ == entry_ids(entries@).take(i as int),
        decreases entries@.len() - i,
    {
        doc_ids.push(entries[i].doc_id);
        assert(doc_ids@ =~= entry_ids(entries@).take(i + 1));
        i = i + 1;
    }
    assert(doc_ids@ =~= entry_ids(entries@));
    encode_doc_deltas(doc_ids.as_slice(), buf);
    let ghost mid = buf@;
    let mut k: usize = 0;
    while k < entries.len()
        invariant
            k <= entries@.len(),
            buf@ == mid + concat_map(entries@.take(k as int), |e: PostingEntry| spec_varint(e.section_idx as u64)),
        decreases entries@.len() - k,
    {
        encode_varint(entries[k].section_idx as u64, buf);
        proof {
            assert(entries@.take(k + 1) =~= entries@.take(k as int).push(entries@[k as int]));
            lemma_concat_map_push(entries@.take(k as int), entries@[k as int], |e: PostingEntry| spec_varint(e.section_idx as u64));
        }
        k = k + 1;
    }
    assert(entries@.take(entries@.len() as int) =~= entries@);
    assert(buf@ =~= old(buf)@ + spec_encode_postings_v6(entries@));
}

/// Doc ids from deltas added one by one to `cur`, appended to `acc`, and
/// the last id; none when a sum leaves the u32 range.
pub open spec fn spec_add_deltas(cur: u32, ds: Seq<u32>, acc: Seq<u32>) -> Option<(Seq<u32>, u32)>
    decreases ds.len(),
{
    if ds.len() == 0 {
        Some((acc, cur))
    } else if cur + ds[0] > u32::MAX {
        None
    } else {
        spec_add_deltas((cur + ds[0]) as u32, ds.drop_first(), acc.push((cur + ds[0]) as u32))
    }
}

/// Reading `k` PFOR blocks from `pos`, continuing from doc id `cur` with
/// the ids `acc` read so far: all ids, the last one, and the position after.
pub open spec fn spec_read_blocks(bytes: Seq<u8>, pos: nat, k: nat, cur: u32, acc: Seq<u32>) -> Result<(Seq<u32>, u32, nat), FormatError>
    decreases k,
{
    if k == 0 {
        Ok((acc, cur, pos))
    } else if pos >= bytes.len() {
        Err(FormatError::TruncatedPostingBlocks)
    } else {
        match spec_decode_block_pfor(bytes.subrange(pos as int, bytes.len() as int)) {
            Err(e) => Err(e),
            Ok((ds, c)) => match spec_add_deltas(cur, ds, acc) {
                None => Err(FormatError::DocIdOverflow),
                Some((acc2, cur2)) => spec_read_blocks(bytes, pos + c, (k - 1) as nat, cur2, acc2),
            },
        }
    }
}

/// Reading `k` varint deltas (each taken as a u32) from `pos`.
pub open spec fn spec_read_tail(bytes: Seq<u8>, pos: nat, k: nat, cur: u32, acc: Seq<u32>) -> Result<(Seq<u32>, u32, nat), FormatError>
    decreases k,
{
    if k == 0 {
        Ok((acc, cur, pos))
    } else if pos >= bytes.len() {
        Err(FormatError::TruncatedPostingTail)
    } else {
        match spec_decode_varint(bytes.subrange(pos as int, bytes.len() as int)) {
            Err(e) => Err(e),
            Ok((d, c)) => if cur + (d as u32) > u32::MAX {
                Err(FormatError::DocIdOverflow)
            } else {
                spec_read_tail(bytes, pos + c, (k - 1) as nat, (cur + (d as u32)) as u32, acc.push((cur + (d as u32)) as u32))
            },
        }
    }
}

/// Reading a section index (a varint taken as a u32) for each doc id.
pub open spec fn spec_read_sections(bytes: Seq<u8>, pos: nat, ids: Seq<u32>, acc: Seq<PostingEntry>) -> Result<(Seq<PostingEntry>, nat), FormatError>
    decreases ids.len(),
{
    if ids.len() == 0 {
        Ok((acc, pos))
    } else if pos >= bytes.len() {
        Err(FormatError::TruncatedSectionIndex)
    } else {
        match spec_decode_varint(bytes.subrange(pos as int, bytes.len() as int)) {
            Err(e) => Err(e),
            Ok((s, c)) => spec_read_sections(bytes, pos + c, ids.drop_first(), acc.push(PostingEntry { doc_id: ids[0], section_idx: s as u32 })),
        }
    }
}

/// What decoding a posting list of doc ids yields.
pub open spec fn spec_decode_postings_ids(bytes: Seq<u8>) -> Result<(Seq<u32>, nat), FormatError> {
    match spec_decode_varint(bytes) {
        Err(e) => Err(e),
        Ok((df, p0)) => if (df as usize) > MAX_POSTING_SIZE {
            Err(FormatError::PostingListTooLarge)
        } else if (df as usize) == 0 {
            Ok((Seq::empty(), p0))
        } else if p0 >= bytes.len() {
            Err(FormatError::TruncatedPostings)
        } else {
            match spec_decode_varint(bytes.subrange(p0 as int, bytes.len() as int)) {
                Err(e) => Err(e),
                Ok((nbk, c)) => match spec_read_blocks(bytes, p0 + c, (nbk as usize) as nat, 0, Seq::empty()) {
                    Err(e) => Err(e),
                    Ok((ids, cur, p1)) => if p1 >= bytes.len() {
                        Err(FormatError::MissingPostingTail)
                    } else {
                        match spec_decode_varint(bytes.subrange(p1 as int, bytes.len() as int)) {
                            Err(e) => Err(e),
                            Ok((tc, c2)) => match spec_read_tail(bytes, p1 + c2, (tc as usize) as nat, cur, ids) {
                                Err(e) => Err(e),
                                Ok((ids2, _, p2)) => Ok((ids2, p2)),
                            },
                        }
                    },
                },
            }
        },
    }
}

/// What decoding a posting list with section indices yields.
pub open spec fn spec_decode_postings_v6(bytes: Seq<u8>) -> Result<(Seq<PostingEntry>, nat), FormatError> {
    match spec_decode_varint(bytes) {
        Err(e) => Err(e),
        Ok((df, p0)) => if (df as usize) > MAX_POSTING_SIZE {
            Err(FormatError::PostingListTooLarge)
        } else if (df as usize) == 0 {
            Ok((Seq::empty(), p0))
        } else {
            match spec_decode_varint(bytes.subrange(p0 as int, bytes.len() as int)) {
                Err(e) => Err(e),
                Ok((nbk, c)) => match spec_read_blocks(bytes, p0 + c, (nbk as usize) as nat, 0, Seq::empty()) {
                    Err(e) => Err(e),
                    Ok((ids, cur, p1)) => match spec_decode_varint(bytes.subrange(p1 as int, bytes.len() as int)) {
                        Err(e) => Err(e),
                        Ok((tc, c2)) => match spec_read_tail(bytes, p1 + c2, tc as nat, cur, ids) {
                            Err(e) => Err(e),
                            Ok((ids2, _, p2)) => spec_read_sections(bytes, p2, ids2, Seq::empty()),
                        },
                    },
                },
            }
        },
    }
}

/// Add deltas one by one to `cur`, pushing each doc id.
fn add_deltas(cur: u32, ds: &Vec<u32>, ids: &mut Vec<u32>) -> (r: Option<u32>)
    ensures
        match spec_add_deltas(cur, ds@, old(ids)@) {
            None => r is None,
            Some((acc, last)) => r == Some(last) && final(ids)@ == acc,
        },
{
    let mut c = cur;
    let mut i: usize = 0;
    assert(ds@.skip(0) =~= ds@);
    while i < ds.len()
        invariant
            i <= ds@.len(),
            spec_add_deltas(cur, ds@, old(ids)@) == spec_add_deltas(c, ds@.skip(i as int), ids@),
        decreases ds@.len() - i,
    {
        assert(ds@.skip(i as int)[0] == ds@[i as int]);
        assert(ds@.skip(i as int).drop_first() =~= ds@.skip(i + 1));
        if ds[i] > u32::MAX - c {
            return None;
        }
        c = c + ds[i];
        ids.push(c);
        i = i + 1;
    }
    assert(ds@.skip(ds@.len() as int) =~= Seq::<u32>::empty());
    Some(c)
}

/// Read `count` PFOR blocks of deltas from `pos` on.
fn read_blocks(bytes: &[u8], at: usize, count: usize, first: u32, ids: &mut Vec<u32>) -> (r: Result<(u32, usize), FormatError>)
    requires
        at <= bytes@.len(),
    ensures
        match spec_read_blocks(bytes@, at as nat, count as nat, first, old(ids)@) {
            Err(e) => r == Err::<(u32, usize), FormatError>(e),
            Ok((acc, last, p)) => r matches Ok((l, q)) && l == last && q == p && final(ids)@ == acc,
        },
        r matches Ok((_, p)) ==> p <= bytes@.len(),
{
    let mut pos = at;
    let mut cur = first;
    let mut k: usize = 0;
    while k < count
        invariant
            k <= count,
            pos <= bytes@.len(),
            spec_read_blocks(bytes@, at as nat, count as nat, first, old(ids)@)
                == spec_read_blocks(bytes@, pos as nat, (count - k) as nat, cur, ids@),
        decreases count - k,
    {
        if pos >= bytes.len() {
            return Err(FormatError::TruncatedPostingBlocks);
        }
        let (deltas, consumed) = match decode_block_pfor(slice_subrange(bytes, pos, bytes.len())) {
            Ok(x) => x,
            Err(e) => return Err(e),
        };
        cur = match add_deltas(cur, &deltas, ids) {
            Some(c) => c,
            None => return Err(FormatError::DocIdOverflow),
        };
        pos = pos + consumed;
        k = k + 1;
    }
    Ok((cur, pos))
}

/// Read `count` varint deltas from `pos` on.
fn read_tail(bytes: &[u8], at: usize, count: u64, first: u32, ids: &mut Vec<u32>) -> (r: Result<(u32, usize), FormatError>)
    requires
        at <= bytes@.len(),
    ensures
        match spec_read_tail(bytes@, at as nat, count as nat, first, old(ids)@) {
            Err(e) => r == Err::<(u32, usize), FormatError>(e),
            Ok((acc, last, p)) => r matches Ok((l, q)) && l == last && q == p && final(ids)@ == acc,
        },
        r matches Ok((_, p)) ==> p <= bytes@.len(),
{
    let mut pos = at;
    let mut cur = first;
    let mut k: u64 = 0;
    while k < count
        invariant
            k <= count,
            pos <= bytes@.len(),
            spec_read_tail(bytes@, at as nat, count as nat, first, old(ids)@)
                == spec_read_tail(bytes@, pos as nat, (count - k) as nat, cur, ids@),
        decreases count - k,
    {
        if pos >= bytes.len() {
            return Err(FormatError::TruncatedPostingTail);
        }
        let (delta, consumed) = match decode_varint_at(bytes, pos) {
            Ok(x) => x,
            Err(e) => return Err(e),
        };
        let d = delta as u32;
        if d > u32::MAX - cur {
            return Err(FormatError::DocIdOverflow);
        }
        cur = cur + d;
        ids.push(cur);
        pos = pos + consumed;
        k = k + 1;
    }
    Ok((cur, pos))
}

/// Decode posting list from block PFOR
pub fn decode_postings(bytes: &[u8]) -> (r: Result<(Vec<u32>, usize), FormatError>)
    ensures
        r matches Ok((ids, n)) ==> spec_decode_postings_ids(bytes@) == Ok::<(Seq<u32>, nat), FormatError>((ids@, n as nat)),
        r matches Err(e) ==> spec_decode_postings_ids(bytes@) == Err::<(Seq<u32>, nat), FormatError>(e),
{
    let (doc_freq, mut pos) = match decode_varint(bytes) {
        Ok(x) => x,
        Err(e) => return Err(e),
    };
    let doc_freq = doc_freq as usize;
    if doc_freq > MAX_POSTING_SIZE {
        return Err(FormatError::PostingListTooLarge);
    }
    let mut doc_ids: Vec<u32> = Vec::new();
    if doc_freq == 0 {
        return Ok((doc_ids, pos));
    }
    if pos >= bytes.len() {
        return Err(FormatError::TruncatedPostings);
    }
    let (num_blocks, consumed) = match decode_varint_at(bytes, pos) {
        Ok(x) => x,
        Err(e) => return Err(e),
    };
    pos = pos + consumed;
    let (cur, p1) = match read_blocks(bytes, pos, num_blocks as usize, 0, &mut doc_ids) {
        Ok(x) => x,
        Err(e) => return Err(e),
    };
    pos = p1;
    if pos >= bytes.len() {
        return Err(FormatError::MissingPostingTail);
    }
    let (tail_count, consumed) = match decode_varint_at(bytes, pos) {
        Ok(x) => x,
        Err(e) => return Err(e),
    };
    pos = pos + consumed;
    let tail_count = tail_count as usize;
    let (_, p2) = match read_tail(bytes, pos, tail_count as u64, cur, &mut doc_ids) {
        Ok(x) => x,
        Err(e) => return Err(e),
    };
    Ok((doc_ids, p2))
}

/// Read a section index for each doc id, from `pos` on.
fn read_sections(bytes: &[u8], at: usize, doc_ids: Vec<u32>) -> (r: Result<(Vec<PostingEntry>, usize), FormatError>)
    requires
        at <= bytes@.len(),
    ensures
        match spec_read_sections(bytes@, at as nat, doc_ids@, Seq::empty()) {
            Err(e) => r == Err::<(Vec<PostingEntry>, usize), FormatError>(e),
            Ok((acc, p)) => r matches Ok((entries, q)) && entries@ == acc && q == p,
        },
{
    let mut entries: Vec<PostingEntry> = Vec::new();
    let mut pos = at;
    assert(doc_ids@.skip(0) =~= doc_ids@);
    let mut i: usize = 0;
    while i < doc_ids.len()
        invariant
            i <= doc_ids@.len(),
            pos <= bytes@.len(),
            spec_read_sections(bytes@, at as nat, doc_ids@, Seq::empty())
                == spec_read_sections(bytes@, pos as nat, doc_ids@.skip(i as int), entries@),
        decreases doc_ids@.len() - i,
    {
        assert(doc_ids@.skip(i as int)[0] == doc_ids@[i as int]);
        assert(doc_ids@.skip(i as int).drop_first() =~= doc_ids@.skip(i + 1));
        if pos >= bytes.len() {
            return Err(FormatError::TruncatedSectionIndex);
        }
        let (section_idx, consumed) = match decode_varint_at(bytes, pos) {
            Ok(x) => x,
            Err(e) => return Err(e),
        };
        pos = pos + consumed;
        entries.push(PostingEntry { doc_id: doc_ids[i], section_idx: section_idx as u32 });
        i = i + 1;
    }
    assert(doc_ids@.skip(doc_ids@.len() as int) =~= Seq::<u32>::empty());
    Ok((entries, pos))
}

/// Decode posting list with section_id indices (v6)
pub fn decode_postings_v6(bytes: &[u8]) -> (r: Result<(Vec<PostingEntry>, usize), FormatError>)
    ensures
        r matches Ok((es, n)) ==> spec_decode_postings_v6(bytes@) == Ok::<(Seq<PostingEntry>, nat), FormatError>((es@, n as nat)),
        r matches Err(e) ==> spec_decode_postings_v6(bytes@) == Err::<(Seq<PostingEntry>, nat), FormatError>(e),
{
    let (doc_freq, mut pos) = match decode_varint(bytes) {
        Ok(x) => x,
        Err(e) => return Err(e),
    };
    let doc_freq = doc_freq as usize;
    if doc_freq > MAX_POSTING_SIZE {
        return Err(FormatError::PostingListTooLarge);
    }
    if doc_freq == 0 {
        return Ok((Vec::new(), pos));
    }
    let (num_blocks, consumed) = match decode_varint_at(bytes, pos) {
        Ok(x) => x,
        Err(e) => return Err(e),
    };
    pos = pos + consumed;
    let mut doc_ids: Vec<u32> = Vec::new();
    let (cur, p1) = match read_blocks(bytes, pos, num_blocks as usize, 0, &mut doc_ids) {
        Ok(x) => x,
        Err(e) => return Err(e),
    };
    pos = p1;
    let (tail_count, consumed) = match decode_varint_at(bytes, pos) {
        Ok(x) => x,
        Err(e) => return Err(e),
    };
    assert(bytes@.len() == bytes.len());
    pos = pos + consumed;
    let (_, p2) = match read_tail(bytes, pos, tail_count, cur, &mut doc_ids) {
        Ok(x) => x,
        Err(e) => return Err(e),
    };
    read_sections(bytes, p2, doc_ids)
}

// ============================================================================
// POSTINGS ROUNDTRIP
// ============================================================================

proof fn lemma_add_deltas(ids: Seq<u32>, a: int, b: int, acc: Seq<u32>)
    requires
        ids_sorted(ids),
        0 <= a <= b <= ids.len(),
    ensures
        spec_add_deltas(prev_id(ids, a), spec_deltas(ids).subrange(a, b), acc) == Some((acc + ids.subrange(a, b), prev_id(ids, b))),
    decreases b - a,
{
    let ds = spec_deltas(ids);
    if a == b {
        assert(ds.subrange(a, b) =~= Seq::<u32>::empty());
        assert(acc + ids.subrange(a, b) =~= acc);
    } else {
        let sub = ds.subrange(a, b);
        assert(sub[0] == ds[a]);
        if a > 0 {
            assert(ids[a - 1] <= ids[a]);
        }
        assert(prev_id(ids, a) + sub[0] == ids[a]);
        assert(sub.drop_first() =~= ds.subrange(a + 1, b));
        lemma_add_deltas(ids, a + 1, b, acc.push(ids[a]));
        assert(acc.push(ids[a]) + ids.subrange(a + 1, b) =~= acc + ids.subrange(a, b));
        assert(prev_id(ids, a + 1) == ids[a]);
    }
}

proof fn lemma_read_blocks_enc(bytes: Seq<u8>, pos: nat, ids: Seq<u32>, j: int, k: nat, rest: Seq<u8>)
    requires
        ids_sorted(ids),
        0 <= j,
        j + k <= ids.len() / 128,
        pos <= bytes.len(),
        bytes.subrange(pos as int, bytes.len() as int) == concat_map(
            spec_blocks(spec_deltas(ids)).subrange(j, j + k),
            |x: Seq<u32>| spec_encode_block_pfor(x),
        ) + rest,
    ensures
        spec_read_blocks(bytes, pos, k, prev_id(ids, 128 * j), ids.take(128 * j)) == Ok::<(Seq<u32>, u32, nat), FormatError>((
            ids.take(128 * (j + k)),
            prev_id(ids, 128 * (j + k)),
            pos + concat_map(spec_blocks(spec_deltas(ids)).subrange(j, j + k), |x: Seq<u32>| spec_encode_block_pfor(x)).len(),
        )),
    decreases k,
{
    let f = |x: Seq<u32>| spec_encode_block_pfor(x);
    let ds = spec_deltas(ids);
    let blocks = spec_blocks(ds);
    let s = blocks.subrange(j, j + k);
    if k == 0 {
        assert(s =~= Seq::<Seq<u32>>::empty());
        assert(concat_map(s, f) =~= Seq::<u8>::empty());
    } else {
        lemma_concat_map_front(s, f);
        let blk = blocks[j];
        assert(s[0] == blk);
        assert(s.drop_first() =~= blocks.subrange(j + 1, j + 1 + (k - 1)));
        let enc = spec_encode_block_pfor(blk);
        let tail = concat_map(s.drop_first(), f);
        assert(concat_map(s, f) + rest =~= enc + (tail + rest));
        assert(128 * j + 128 <= ids.len());
        assert(blk == ds.subrange(128 * j, 128 * j + 128));
        assert(blk.len() == 128);
        lemma_block_pfor_roundtrip(blk, tail + rest);
        assert(enc.len() > 0);
        assert(bytes.subrange(pos as int, bytes.len() as int).len() > 0);
        assert(pos < bytes.len());
        lemma_add_deltas(ids, 128 * j, 128 * j + 128, ids.take(128 * j));
        assert(ids.take(128 * j) + ids.subrange(128 * j, 128 * j + 128) =~= ids.take(128 * (j + 1)));
        crate::binary::encoding::lemma_subrange_skip(bytes, pos as int, enc, tail + rest);
        lemma_read_blocks_enc(bytes, pos + enc.len(), ids, j + 1, (k - 1) as nat, rest);
        assert(128 * (j + 1) == 128 * j + 128);
        assert((j + 1) + (k - 1) == j + k);
    }
}

proof fn lemma_read_tail_enc(bytes: Seq<u8>, pos: nat, ids: Seq<u32>, i: int, k: nat, rest: Seq<u8>)
    requires
        ids_sorted(ids),
        0 <= i,
        i + k <= ids.len(),
        pos <= bytes.len(),
        bytes.subrange(pos as int, bytes.len() as int) == concat_map(spec_deltas(ids).subrange(i, i + k), |d: u32| spec_varint(d as u64)) + rest,
    ensures
        spec_read_tail(bytes, pos, k, prev_id(ids, i), ids.take(i)) == Ok::<(Seq<u32>, u32, nat), FormatError>((
            ids.take(i + k),
            prev_id(ids, i + k),
            pos + concat_map(spec_deltas(ids).subrange(i, i + k), |d: u32| spec_varint(d as u64)).len(),
        )),
    decreases k,
{
    let f = |d: u32| spec_varint(d as u64);
    let ds = spec_deltas(ids);
    let s = ds.subrange(i, i + k);
    if k == 0 {
        assert(s =~= Seq::<u32>::empty());
        assert(concat_map(s, f) =~= Seq::<u8>::empty());
    } else {
        lemma_concat_map_front(s, f);
        assert(s[0] == ds[i]);
        assert(s.drop_first() =~= ds.subrange(i + 1, i + 1 + (k - 1)));
        let v = spec_varint(ds[i] as u64);
        let tail = concat_map(s.drop_first(), f);
        assert(concat_map(s, f) + rest =~= v + (tail + rest));
        lemma_varint_roundtrip(ds[i] as u64, tail + rest);
        crate::binary::encoding::lemma_varint_len(ds[i] as u64);
        assert(pos < bytes.len()) by {
            assert(bytes.subrange(pos as int, bytes.len() as int).len() >= v.len());
        }
        if i > 0 {
            assert(ids[i - 1] <= ids[i]);
        }
        assert((ds[i] as u64) as u32 == ds[i]);
        assert(prev_id(ids, i) + ds[i] == ids[i]);
        crate::binary::encoding::lemma_subrange_skip(bytes, pos as int, v, tail + rest);
        assert(ids.take(i).push(ids[i]) =~= ids.take(i + 1));
        lemma_read_tail_enc(bytes, pos + v.len(), ids, i + 1, (k - 1) as nat, rest);
        assert((i + 1) + (k - 1) == i + k);
    }
}

proof fn lemma_doc_deltas_enc(bytes: Seq<u8>, pos: nat, ids: Seq<u32>, rest: Seq<u8>)
    requires
        ids_sorted(ids),
        ids.len() <= MAX_POSTING_SIZE,
        pos <= bytes.len(),
        bytes.subrange(pos as int, bytes.len() as int) == spec_encode_doc_deltas(ids) + rest,
    ensures
        ({
            let ds = spec_deltas(ids);
            let nbk: int = ds.len() as int / 128;
            let vb = spec_varint(nbk as u64);
            let eb = concat_map(spec_blocks(ds), |b: Seq<u32>| spec_encode_block_pfor(b));
            let vt = spec_varint((ds.len() - 128 * nbk) as u64);
            let p1 = pos + vb.len() + eb.len();
            &&& spec_decode_varint(bytes.subrange(pos as int, bytes.len() as int)) == Ok::<(u64, nat), FormatError>((nbk as u64, vb.len()))
            &&& spec_read_blocks(bytes, pos + vb.len(), nbk as nat, 0, Seq::empty()) == Ok::<(Seq<u32>, u32, nat), FormatError>((
                ids.take(128 * nbk), prev_id(ids, 128 * nbk), p1))
            &&& p1 < bytes.len()
            &&& spec_decode_varint(bytes.subrange(p1 as int, bytes.len() as int)) == Ok::<(u64, nat), FormatError>(
                ((ds.len() - 128 * nbk) as u64, vt.len()))
            &&& spec_read_tail(bytes, p1 + vt.len(), (ds.len() - 128 * nbk) as nat, prev_id(ids, 128 * nbk), ids.take(128 * nbk))
                == Ok::<(Seq<u32>, u32, nat), FormatError>((ids, prev_id(ids, ids.len() as int), pos + spec_encode_doc_deltas(ids).len()))
            &&& bytes.subrange((pos + spec_encode_doc_deltas(ids).len()) as int, bytes.len() as int) == rest
        }),
{
    let ds = spec_deltas(ids);
    let nbk: int = ds.len() as int / 128;
    let blocks = spec_blocks(ds);
    let vb = spec_varint(nbk as u64);
    let eb = concat_map(blocks, |b: Seq<u32>| spec_encode_block_pfor(b));
    let tc: int = ds.len() - 128 * nbk;
    let vt = spec_varint(tc as u64);
    let tail = ds.skip(128 * nbk);
    let et = concat_map(tail, |d: u32| spec_varint(d as u64));
    assert(spec_encode_doc_deltas(ids) + rest =~= vb + (eb + (vt + (et + rest))));
    lemma_varint_roundtrip(nbk as u64, eb + (vt + (et + rest)));
    crate::binary::encoding::lemma_subrange_skip(bytes, pos as int, vb, eb + (vt + (et + rest)));
    assert(blocks.subrange(0, nbk) =~= blocks);
    assert(ids.take(0) =~= Seq::<u32>::empty());
    lemma_read_blocks_enc(bytes, pos + vb.len(), ids, 0, nbk as nat, vt + (et + rest));
    let p1 = pos + vb.len() + eb.len();
    crate::binary::encoding::lemma_subrange_skip(bytes, (pos + vb.len()) as int, eb, vt + (et + rest));
    lemma_varint_roundtrip(tc as u64, et + rest);
    crate::binary::encoding::lemma_varint_len(tc as u64);
    assert(p1 < bytes.len()) by {
        assert(bytes.subrange(p1 as int, bytes.len() as int).len() >= vt.len());
    }
    crate::binary::encoding::lemma_subrange_skip(bytes, p1 as int, vt, et + rest);
    assert(tail =~= ds.subrange(128 * nbk, 128 * nbk + tc));
    lemma_read_tail_enc(bytes, p1 + vt.len(), ids, 128 * nbk, tc as nat, rest);
    assert(ids.take(128 * nbk + tc) =~= ids);
    crate::binary::encoding::lemma_subrange_skip(bytes, (p1 + vt.len()) as int, et, rest);
}

/// Decoding an encoded posting list of non-decreasing doc ids (at most
/// MAX_POSTING_SIZE of them), whatever bytes follow it, gives back the ids
/// and the length of the encoding.
pub proof fn lemma_postings_roundtrip(ids: Seq<u32>, rest: Seq<u8>)
    requires
        ids_sorted(ids),
        ids.len() <= MAX_POSTING_SIZE,
    ensures
        spec_decode_postings_ids(spec_encode_postings_ids(ids) + rest) == Ok::<(Seq<u32>, nat), FormatError>(
            (ids, spec_encode_postings_ids(ids).len())),
{
    let n = ids.len();
    let vn = spec_varint(n as u64);
    let b = spec_encode_postings_ids(ids) + rest;
    if n == 0 {
        assert(b =~= vn + rest);
        lemma_varint_roundtrip(n as u64, rest);
        assert(ids =~= Seq::<u32>::empty());
    } else {
        let body = spec_encode_doc_deltas(ids);
        assert(b =~= vn + (body + rest));
        lemma_varint_roundtrip(n as u64, body + rest);
        assert(b.subrange(0, b.len() as int) =~= b);
        crate::binary::encoding::lemma_subrange_skip(b, 0, vn, body + rest);
        lemma_doc_deltas_enc(b, vn.len(), ids, rest);
        let ds = spec_deltas(ids);
        let nbk = ds.len() / 128;
        assert((nbk as u64) as usize == nbk);
        assert(((ds.len() - 128 * nbk) as u64) as usize == ds.len() - 128 * nbk);
        assert(vn.len() < b.len()) by {
            crate::binary::encoding::lemma_varint_len(nbk as u64);
        }
    }
}

/// The section indices of posting entries, as written after the doc ids.
proof fn lemma_read_sections_enc(bytes: Seq<u8>, pos: nat, entries: Seq<PostingEntry>, i: int, rest: Seq<u8>)
    requires
        0 <= i <= entries.len(),
        pos <= bytes.len(),
        bytes.subrange(pos as int, bytes.len() as int) == concat_map(entries.skip(i), |e: PostingEntry| spec_varint(e.section_idx as u64)) + rest,
    ensures
        spec_read_sections(bytes, pos, entry_ids(entries).skip(i), entries.take(i)) == Ok::<(Seq<PostingEntry>, nat), FormatError>((
            entries,
            pos + concat_map(entries.skip(i), |e: PostingEntry| spec_varint(e.section_idx as u64)).len(),
        )),
    decreases entries.len() - i,
{
    let f = |e: PostingEntry| spec_varint(e.section_idx as u64);
    let s = entries.skip(i);
    let ids = entry_ids(entries);
    if i == entries.len() {
        assert(s =~= Seq::<PostingEntry>::empty());
        assert(ids.skip(i) =~= Seq::<u32>::empty());
        assert(concat_map(s, f) =~= Seq::<u8>::empty());
        assert(entries.take(i) =~= entries);
    } else {
        lemma_concat_map_front(s, f);
        let e = entries[i];
        assert(s[0] == e);
        assert(s.drop_first() =~= entries.skip(i + 1));
        let v = spec_varint(e.section_idx as u64);
        let tail = concat_map(s.drop_first(), f);
        assert(concat_map(s, f) + rest =~= v + (tail + rest));
        lemma_varint_roundtrip(e.section_idx as u64, tail + rest);
        crate::binary::encoding::lemma_varint_len(e.section_idx as u64);
        assert(pos < bytes.len()) by {
            assert(bytes.subrange(pos as int, bytes.len() as int).len() >= v.len());
        }
        assert(ids.skip(i)[0] == e.doc_id);
        assert(ids.skip(i).drop_first() =~= ids.skip(i + 1));
        assert(PostingEntry { doc_id: e.doc_id, section_idx: (e.section_idx as u64) as u32 } == e);
        assert(entries.take(i).push(e) =~= entries.take(i + 1));
        crate::binary::encoding::lemma_subrange_skip(bytes, pos as int, v, tail + rest);
        lemma_read_sections_enc(bytes, pos + v.len(), entries, i + 1, rest);
    }
}

/// Decoding an encoded posting list with section indices (doc ids not
/// decreasing, at most MAX_POSTING_SIZE entries), whatever bytes follow it,
/// gives back the entries and the length of the encoding.
#[verifier::rlimit(60)]
pub proof fn lemma_postings_v6_roundtrip(entries: Seq<PostingEntry>, rest: Seq<u8>)
    requires
        ids_sorted(entry_ids(entries)),
        entries.len() <= MAX_POSTING_SIZE,
    ensures
        spec_decode_postings_v6(spec_encode_postings_v6(entries) + rest) == Ok::<(Seq<PostingEntry>, nat), FormatError>(
            (entries, spec_encode_postings_v6(entries).len())),
{
    let n = entries.len();
    let ids = entry_ids(entries);
    let vn = spec_varint(n as u64);
    let b = spec_encode_postings_v6(entries) + rest;
    if n == 0 {
        assert(b =~= vn + rest);
        lemma_varint_roundtrip(n as u64, rest);
        assert(entries =~= Seq::<PostingEntry>::empty());
    } else {
        let body = spec_encode_doc_deltas(ids);
        let secs = concat_map(entries, |e: PostingEntry| spec_varint(e.section_idx as u64));
        assert(b =~= vn + (body + (secs + rest)));
        lemma_varint_roundtrip(n as u64, body + (secs + rest));
        assert(b.subrange(0, b.len() as int) =~= b);
        crate::binary::encoding::lemma_subrange_skip(b, 0, vn, body + (secs + rest));
        lemma_doc_deltas_enc(b, vn.len(), ids, secs + rest);
        let ds = spec_deltas(ids);
        let nbk = ds.len() / 128;
        assert((nbk as u64) as usize == nbk);
        assert(((ds.len() - 128 * nbk) as u64) as nat == ds.len() - 128 * nbk);
        assert(entries.skip(0) =~= entries);
        assert(ids.skip(0) =~= ids);
        assert(entries.take(0) =~= Seq::<PostingEntry>::empty());
        lemma_read_sections_enc(b, vn.len() + body.len(), entries, 0, rest);
    }
}

} // verus!
