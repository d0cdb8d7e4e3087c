//! Binary encoding primitives: varint, front compression, separated streams.
//!
//! Varint (LEB128) for integers that are usually small, front compression for
//! sorted vocabularies whose neighbours share prefixes, and separated streams
//! for suffix arrays so that each stream holds homogeneous data.

use vstd::prelude::*;
use vstd::arithmetic::power::pow;
use vstd::slice::slice_subrange;
use vstd::utf8::{decode_utf8, encode_utf8, valid_utf8};
use crate::error::FormatError;

verus! {

/// Largest number of bytes a varint may occupy (a u64 needs at most ten).
pub const MAX_VARINT_BYTES: usize = 10;

// ============================================================================
// VARINT
// ============================================================================

/// The LEB128 encoding of `v`: seven bits per byte, least significant group
/// first, continuation bit set on every byte but the last.
pub open spec fn spec_varint(v: u64) -> Seq<u8>
    decreases v,
{
    if v < 128 {
        seq![v as u8]
    } else {
        seq![((v % 128) + 128) as u8] + spec_varint(v / 128)
    }
}

/// The number the seven-bit groups of `bytes` stand for, first byte lowest.
pub open spec fn groups_value(bytes: Seq<u8>) -> nat
    decreases bytes.len(),
{
    if bytes.len() == 0 {
        0
    } else {
        (bytes[0] % 128) as nat + 128 * groups_value(bytes.drop_first())
    }
}

/// Index just past the first byte without continuation bit, looking at
/// positions `i..` but never at position ten or beyond.
pub open spec fn varint_terminator(bytes: Seq<u8>, i: nat) -> Option<nat>
    decreases 10 - i,
{
    if i >= 10 || i >= bytes.len() {
        None
    } else if bytes[i as int] < 128 {
        Some(i + 1)
    } else {
        varint_terminator(bytes, i + 1)
    }
}

/// What decoding a varint at the start of `bytes` yields: the value (its
/// groups reduced modulo 2^64) and the number of bytes it occupies.
pub open spec fn spec_decode_varint(bytes: Seq<u8>) -> Result<(u64, nat), FormatError> {
    if bytes.len() == 0 {
        Err(FormatError::EmptyVarint)
    } else {
        match varint_terminator(bytes, 0) {
            Some(n) => Ok(((groups_value(bytes.take(n as int)) % 0x1_0000_0000_0000_0000) as u64, n)),
            None => if bytes.len() >= 10 {
                Err(FormatError::VarintTooLong)
            } else {
                Err(FormatError::IncompleteVarint)
            },
        }
    }
}

/// Encode a varint to bytes
pub fn encode_varint(value: u64, buf: &mut Vec<u8>)
    ensures
        final(buf)@ == old(buf)@ + spec_varint(value),
{
    let mut v = value;
    let ghost start = buf@;
    loop
        invariant_except_break
            start + spec_varint(value) == buf@ + spec_varint(v),
        ensures
            buf@ == start + spec_varint(value),
        decreases v,
    {
        let byte: u8 = (v % 128) as u8;
        let next = v / 128;
        if next == 0 {
            buf.push(byte);
            assert(buf@ == start + spec_varint(value));
            break;
        } else {
            buf.push(byte + 128);
            assert(spec_varint(v) == seq![((v % 128) + 128) as u8] + spec_varint(next));
            assert(buf@ + spec_varint(next) == start + spec_varint(value)) by {
                assert(buf@ + spec_varint(next) =~= (buf@.drop_last()) + (seq![((v % 128) + 128) as u8] + spec_varint(next)));
            }
            v = next;
        }
    }
}

proof fn lemma_groups_value_push(s: Seq<u8>, b: u8)
    ensures
        groups_value(s.push(b)) == groups_value(s) + (b % 128) as nat * pow(128, s.len()),
    decreases s.len(),
{
    let x = (b % 128) as nat;
    if s.len() == 0 {
        vstd::arithmetic::power::lemma_pow0(128);
        assert(s.push(b).drop_first() =~= Seq::<u8>::empty());
        assert(groups_value(Seq::<u8>::empty()) == 0);
        assert(s.push(b)[0] == b);
        assert(x * 1 == x);
    } else {
        let t = s.drop_first();
        assert(s.push(b).drop_first() =~= t.push(b));
        assert(s.push(b)[0] == s[0]);
        lemma_groups_value_push(t, b);
        vstd::arithmetic::power::lemma_pow_adds(128, 1, t.len());
        vstd::arithmetic::power::lemma_pow1(128);
        let p = pow(128, t.len());
        assert(pow(128, s.len()) == 128 * p);
        let g = groups_value(t);
        assert(128 * (g + x * p) == 128 * g + x * (128 * p)) by (nonlinear_arith);
        assert(groups_value(s.push(b)) == (s[0] % 128) as nat + 128 * groups_value(t.push(b)));
        assert(groups_value(s) == (s[0] % 128) as nat + 128 * g);
    }
}

proof fn lemma_pow128_9()
    ensures
        pow(128, 9) == 0x8000_0000_0000_0000,
{
    reveal_with_fuel(pow, 10);
}

proof fn lemma_terminator_found(s: Seq<u8>, k: nat, i: nat)
    requires
        k <= i < 10,
        i < s.len(),
        s[i as int] < 128,
        forall|j: int| k <= j < i ==> s[j] >= 128,
    ensures
        varint_terminator(s, k) == Some(i + 1),
    decreases i - k,
{
    if k < i {
        lemma_terminator_found(s, k + 1, i);
    }
}

proof fn lemma_terminator_missing(s: Seq<u8>, k: nat)
    requires
        k <= 10,
        forall|j: int| k <= j < s.len() && j < 10 ==> s[j] >= 128,
    ensures
        varint_terminator(s, k) is None,
    decreases 10 - k,
{
    if k < 10 && k < s.len() {
        lemma_terminator_missing(s, k + 1);
    }
}


#[verifier::spinoff_prover]
#[verifier::rlimit(40)]
proof fn lemma_varint_shape(v: u64)
    ensures
        1 <= spec_varint(v).len(),
        spec_varint(v)[spec_varint(v).len() - 1] < 128,
        forall|j: int| 0 <= j < spec_varint(v).len() - 1 ==> spec_varint(v)[j] >= 128,
        groups_value(spec_varint(v)) == v as nat,
    decreases v,
{
    if v >= 128 {
        let t = spec_varint(v / 128);
        lemma_varint_shape(v / 128);
        let s = spec_varint(v);
        assert(s == seq![((v % 128) + 128) as u8] + t);
        assert(s.drop_first() =~= t);
        assert(s[0] % 128 == v % 128);
        assert forall|j: int| 0 <= j < s.len() - 1 implies s[j] >= 128 by {
            if j > 0 {
                assert(s[j] == t[j - 1]);
            }
        }
        assert(s[s.len() - 1] == t[t.len() - 1]);
        assert(groups_value(s) == (s[0] % 128) as nat + 128 * groups_value(t));
        assert(v as nat == (v % 128) as nat + 128 * ((v / 128) as nat));
    } else {
        let s = spec_varint(v);
        assert(s.drop_first() =~= Seq::<u8>::empty());
        assert(groups_value(s) == (s[0] % 128) as nat + 128 * groups_value(s.drop_first()));
        assert(groups_value(Seq::<u8>::empty()) == 0);
        assert(s[0] == v as u8);
    }
}

pub(crate) proof fn lemma_varint_len_bound(v: u64, k: nat)
    requires
        k >= 1,
        (v as int) < pow(128, k),
    ensures
        spec_varint(v).len() <= k,
    decreases v,
{
    if v >= 128 {
        vstd::arithmetic::power::lemma_pow_adds(128, 1, (k - 1) as nat);
        vstd::arithmetic::power::lemma_pow1(128);
        if k == 1 {
            assert(false);
        }
        let p = pow(128, (k - 1) as nat);
        assert((v / 128) < p) by (nonlinear_arith)
            requires (v as int) < 128 * p, v >= 0;
        lemma_varint_len_bound(v / 128, (k - 1) as nat);
    }
}

/// A varint is at most MAX_VARINT_BYTES long.
pub proof fn lemma_varint_len(v: u64)
    ensures
        1 <= spec_varint(v).len() <= 10,
{
    lemma_varint_shape(v);
    lemma_pow128_9();
    vstd::arithmetic::power::lemma_pow_adds(128, 9, 1);
    vstd::arithmetic::power::lemma_pow1(128);
    assert(pow(128, 10) == 0x40_0000_0000_0000_0000);
    lemma_varint_len_bound(v, 10);
}

/// Decoding the encoding of `v`, followed by any bytes at all, gives back `v`
/// and the length of its encoding.
pub proof fn lemma_varint_roundtrip(v: u64, rest: Seq<u8>)
    ensures
        spec_decode_varint(spec_varint(v) + rest) == Ok::<(u64, nat), FormatError>((v, spec_varint(v).len())),
{
    let s = spec_varint(v);
    let b = s + rest;
    lemma_varint_shape(v);
    lemma_varint_len(v);
    assert forall|j: int| 0 <= j < s.len() - 1 implies b[j] >= 128 by {
        assert(b[j] == s[j]);
    }
    assert(b[s.len() - 1] == s[s.len() - 1]);
    lemma_terminator_found(b, 0, (s.len() - 1) as nat);
    assert(b.take(s.len() as int) =~= s);
}

/// Decode the varint that starts at `bytes[pos]`.
pub(crate) fn decode_varint_at(bytes: &[u8], pos: usize) -> (r: Result<(u64, usize), FormatError>)
    requires
        pos <= bytes@.len(),
    ensures
        r matches Ok((v, n)) ==> spec_decode_varint(bytes@.subrange(pos as int, bytes@.len() as int))
            == Ok::<(u64, nat), FormatError>((v, n as nat)),
        r matches Err(e) ==> spec_decode_varint(bytes@.subrange(pos as int, bytes@.len() as int))
            == Err::<(u64, nat), FormatError>(e),
        r matches Ok((_, n)) ==> 1 <= n <= 10 && pos + n <= bytes@.len(),
{
    let ghost sub = bytes@.subrange(pos as int, bytes@.len() as int);
    let avail = bytes.len() - pos;
    assert(bytes@.len() == bytes.len());
    if avail == 0 {
        return Err(FormatError::EmptyVarint);
    }
    let mut result: u64 = 0;
    let mut mult: u64 = 1;
    let mut i: usize = 0;
    proof {
        vstd::arithmetic::power::lemma_pow0(128);
        assert(sub.take(0) =~= Seq::<u8>::empty());
    }
    while i < avail && i < MAX_VARINT_BYTES
        invariant
            avail == sub.len(),
            sub == bytes@.subrange(pos as int, bytes@.len() as int),
            pos + avail == bytes@.len(),
            bytes@.len() <= usize::MAX,
            i <= 10,
            i <= avail,
            forall|j: int| 0 <= j < i ==> sub[j] >= 128,
            i <= 9 ==> mult == pow(128, i as nat),
            i <= 9 ==> result as nat == groups_value(sub.take(i as int)),
            i <= 9 ==> (result as nat) < pow(128, i as nat),
            i == 10 ==> result as nat == groups_value(sub.take(10)) % 0x1_0000_0000_0000_0000,
        decreases 10 - i,
    {
        assert(pos + i < bytes@.len());
        let byte = bytes[pos + i];
        assert(byte == sub[i as int]);
        proof {
            assert(sub.take(i as int + 1) =~= sub.take(i as int).push(byte));
            lemma_groups_value_push(sub.take(i as int), byte);
        }
        let ghost old_result = result;
        if i < 9 {
            proof {
                vstd::arithmetic::power::lemma_pow_adds(128, i as nat, 1);
                vstd::arithmetic::power::lemma_pow1(128);
                let p = pow(128, i as nat);
                assert(p * 128 <= 0x8000_0000_0000_0000) by {
                    vstd::arithmetic::power::lemma_pow_increases(128, (i + 1) as nat, 9);
                    lemma_pow128_9();
                }
                let x = (byte % 128) as int;
                assert(result + x * p < p * 128) by (nonlinear_arith)
                    requires result < p, 0 <= x < 128, p > 0;
            }
            result = result + ((byte % 128) as u64) * mult;
        } else {
            proof {
                lemma_pow128_9();
                let g = groups_value(sub.take(10));
                let x = (byte % 128) as int;
                assert(g == old_result + x * 0x8000_0000_0000_0000);
                assert((old_result + x * 0x8000_0000_0000_0000) % 0x1_0000_0000_0000_0000
                    == old_result + (byte % 2) as int * 0x8000_0000_0000_0000) by (nonlinear_arith)
                    requires 0 <= old_result < 0x8000_0000_0000_0000, x == (byte % 128) as int, 0 <= byte < 256;
            }
            result = result + ((byte % 2) as u64) * mult;
        }
        if byte < 128 {
            proof {
                lemma_terminator_found(sub, 0, i as nat);
                if i < 9 {
                    assert((result as nat) < 0x1_0000_0000_0000_0000);
                    assert(groups_value(sub.take(i as int + 1)) % 0x1_0000_0000_0000_0000 == result as nat);
                }
            }
            return Ok((result, i + 1));
        }
        i = i + 1;
        if i < 10 {
            proof {
                vstd::arithmetic::power::lemma_pow_adds(128, (i - 1) as nat, 1);
                vstd::arithmetic::power::lemma_pow1(128);
            }
            mult = mult * 128;
        }
    }
    proof {
        lemma_terminator_missing(sub, 0);
    }
    if i >= MAX_VARINT_BYTES {
        Err(FormatError::VarintTooLong)
    } else {
        Err(FormatError::IncompleteVarint)
    }
}

/// Decode a varint from bytes, returning (value, bytes_consumed)
///
/// Returns an error if the buffer is empty, ends inside the varint, or the
/// varint runs past MAX_VARINT_BYTES bytes.
pub fn decode_varint(bytes: &[u8]) -> (r: Result<(u64, usize), FormatError>)
    ensures
        r matches Ok((v, n)) ==> spec_decode_varint(bytes@) == Ok::<(u64, nat), FormatError>((v, n as nat)),
        r matches Err(e) ==> spec_decode_varint(bytes@) == Err::<(u64, nat), FormatError>(e),
        r matches Ok((_, n)) ==> 1 <= n <= 10 && n <= bytes@.len(),
{
    assert(bytes@.subrange(0, bytes@.len() as int) =~= bytes@);
    decode_varint_at(bytes, 0)
}


// ============================================================================
// SHARED HELPERS
// ============================================================================

/// The concatenation of `f(s[0]) + f(s[1]) + ...`.
pub open spec fn concat_map<T>(s: Seq<T>, f: spec_fn(T) -> Seq<u8>) -> Seq<u8>
    decreases s.len(),
{
    if s.len() == 0 {
        Seq::<u8>::empty()
    } else {
        concat_map(s.drop_last(), f) + f(s.last())
    }
}

/// `concat_map` unfolds from the front as well as from the back.
pub proof fn lemma_concat_map_front<T>(s: Seq<T>, f: spec_fn(T) -> Seq<u8>)
    requires
        s.len() > 0,
    ensures
        concat_map(s, f) == f(s[0]) + concat_map(s.drop_first(), f),
    decreases s.len(),
{
    if s.len() == 1 {
        assert(s.drop_last() =~= Seq::<T>::empty());
        assert(s.drop_first() =~= Seq::<T>::empty());
        assert(concat_map(s.drop_last(), f) =~= Seq::<u8>::empty());
        assert(concat_map(s.drop_first(), f) =~= Seq::<u8>::empty());
        assert(s.last() == s[0]);
        assert(concat_map(s, f) =~= f(s[0]));
    } else {
        lemma_concat_map_front(s.drop_last(), f);
        assert(s.drop_last().drop_first() =~= s.drop_first().drop_last());
        assert(s.drop_first().last() == s.last());
        assert(concat_map(s, f) =~= f(s[0]) + concat_map(s.drop_first(), f));
    }
}

/// Appending one more element appends its image.
pub proof fn lemma_concat_map_push<T>(s: Seq<T>, x: T, f: spec_fn(T) -> Seq<u8>)
    ensures
        concat_map(s.push(x), f) == concat_map(s, f) + f(x),
{
    assert(s.push(x).drop_last() =~= s);
}

/// Append all of `src` to `buf`.
pub(crate) fn append_bytes(buf: &mut Vec<u8>, src: &[u8])
    ensures
        final(buf)@ == old(buf)@ + src@,
{
    let ghost start = buf@;
    let mut i: usize = 0;
    while i < src.len()
        invariant
            i <= src@.len(),
            buf@ == start + src@.take(i as int),
        decreases src@.len() - i,
    {
        buf.push(src[i]);
        assert(src@.take(i as int + 1) =~= src@.take(i as int).push(src@[i as int]));
        i = i + 1;
    }
    assert(src@.take(src@.len() as int) =~= src@);
}

/// Turns bytes into a string when they are well-formed UTF-8.
///
/// Calls `std::str::from_utf8`. Trusted: it succeeds exactly on valid UTF-8,
/// and the string it gives holds the characters those bytes encode.
#[verifier::external_body]
pub(crate) fn utf8_to_string(bytes: &[u8]) -> (r: Option<String>)
    ensures
        r is Some <==> valid_utf8(bytes@),
        r matches Some(s) ==> s@ == decode_utf8(bytes@),
{
    match std::str::from_utf8(bytes) {
        Ok(s) => Some(s.to_string()),
        Err(_) => None,
    }
}

/// The bytes of a string preceded by their count as a varint.
pub open spec fn spec_len_prefixed(bytes: Seq<u8>) -> Seq<u8> {
    spec_varint(bytes.len() as u64) + bytes
}

/// One string, written as its UTF-8 bytes with a length prefix.
pub open spec fn spec_string_entry(s: Seq<char>) -> Seq<u8> {
    spec_len_prefixed(encode_utf8(s))
}

/// Write `s` as a varint length followed by its UTF-8 bytes.
pub(crate) fn write_string(buf: &mut Vec<u8>, s: &str)
    ensures
        final(buf)@ == old(buf)@ + spec_string_entry(s@),
{
    let bytes = s.as_bytes();
    encode_varint(bytes.len() as u64, buf);
    append_bytes(buf, bytes);
    assert(buf@ =~= old(buf)@ + spec_string_entry(s@));
}

// ============================================================================
// SECTION TABLE ENCODING
// ============================================================================

/// The encoded section table: the count, then each id length-prefixed.
pub open spec fn spec_encode_section_table(ids: Seq<Seq<char>>) -> Seq<u8> {
    spec_varint(ids.len() as u64) + concat_map(ids, |s: Seq<char>| spec_string_entry(s))
}

/// Encode section ID string table (deduplicated, length-prefixed)
pub fn encode_section_table(section_ids: &[String], buf: &mut Vec<u8>)
    ensures
        final(buf)@ == old(buf)@ + spec_encode_section_table(section_ids@.map_values(|s: String| s@)),
{
    let ghost ids = section_ids@.map_values(|s: String| s@);
    let ghost f = |s: Seq<char>| spec_string_entry(s);
    encode_varint(section_ids.len() as u64, buf);
    let ghost start = buf@;
    let mut i: usize = 0;
    while i < section_ids.len()
        invariant
            i <= section_ids@.len(),
            ids == section_ids@.map_values(|s: String| s@),
            f == (|s: Seq<char>| spec_string_entry(s)),
            buf@ == start + concat_map(ids.take(i as int), f),
        decreases section_ids@.len() - i,
    {
        write_string(buf, section_ids[i].as_str());
        proof {
            assert(ids.take(i as int + 1) =~= ids.take(i as int).push(ids[i as int]));
            lemma_concat_map_push(ids.take(i as int), ids[i as int], f);
        }
        i = i + 1;
    }
    assert(ids.take(ids.len() as int) =~= ids);
    assert(ids.len() == section_ids@.len());
}

/// Reading `k` length-prefixed strings starting at `pos`: the strings and the
/// position just past them.
pub open spec fn spec_parse_strings(bytes: Seq<u8>, pos: nat, k: nat) -> Result<(Seq<Seq<char>>, nat), FormatError>
    decreases k,
{
    if k == 0 {
        Ok((Seq::<Seq<char>>::empty(), pos))
    } else if pos >= bytes.len() {
        Err(FormatError::TruncatedSectionTable)
    } else {
        match spec_decode_varint(bytes.subrange(pos as int, bytes.len() as int)) {
            Err(e) => Err(e),
            Ok((l, c)) => {
                let p = pos + c;
                if p + l > usize::MAX {
                    Err(FormatError::SectionIdOverflow)
                } else if p + l > bytes.len() {
                    Err(FormatError::TruncatedSectionId)
                } else if !valid_utf8(bytes.subrange(p as int, p as int + l)) {
                    Err(FormatError::InvalidUtf8)
                } else {
                    match spec_parse_strings(bytes, (p + l) as nat, (k - 1) as nat) {
                        Err(e) => Err(e),
                        Ok((rest, q)) => Ok((seq![decode_utf8(bytes.subrange(p as int, p as int + l))] + rest, q)),
                    }
                }
            },
        }
    }
}

/// What decoding a section table yields: the ids and the bytes consumed.
pub open spec fn spec_decode_section_table(bytes: Seq<u8>) -> Result<(Seq<Seq<char>>, nat), FormatError> {
    if bytes.len() == 0 {
        Ok((Seq::<Seq<char>>::empty(), 0))
    } else {
        match spec_decode_varint(bytes) {
            Err(e) => Err(e),
            Ok((count, p)) => if count > bytes.len() - p {
                Err(FormatError::SectionTableTooLarge)
            } else {
                spec_parse_strings(bytes, p, count as nat)
            },
        }
    }
}

/// Decode section ID string table
pub fn decode_section_table(bytes: &[u8]) -> (r: Result<(Vec<String>, usize), FormatError>)
    ensures
        match spec_decode_section_table(bytes@) {
            Ok((ids, n)) => r matches Ok((v, m)) && v@.map_values(|s: String| s@) == ids && m == n,
            Err(e) => r == Err::<(Vec<String>, usize), FormatError>(e),
        },
{
    if bytes.len() == 0 {
        return Ok((Vec::new(), 0));
    }
    let (count64, mut pos) = match decode_varint(bytes) {
        Ok(x) => x,
        Err(e) => return Err(e),
    };
    let remaining = bytes.len() - pos;
    if count64 > remaining as u64 {
        return Err(FormatError::SectionTableTooLarge);
    }
    let count = count64 as usize;
    assert(count as nat == count64 as nat);
    let mut table: Vec<String> = Vec::new();
    let mut i: usize = 0;
    let ghost total = spec_parse_strings(bytes@, pos as nat, count as nat);
    assert(total == spec_decode_section_table(bytes@));
    while i < count
        invariant
            i <= count,
            pos <= bytes@.len(),
            total == spec_decode_section_table(bytes@),
            match spec_parse_strings(bytes@, pos as nat, (count - i) as nat) {
                Ok((rest, q)) => total == Ok::<(Seq<Seq<char>>, nat), FormatError>(
                    (table@.map_values(|s: String| s@) + rest, q)),
                Err(e) => total == Err::<(Seq<Seq<char>>, nat), FormatError>(e),
            },
        decreases count - i,
    {
        if pos >= bytes.len() {
            return Err(FormatError::TruncatedSectionTable);
        }
        let (len, consumed) = match decode_varint_at(bytes, pos) {
            Ok(x) => x,
            Err(e) => return Err(e),
        };
        let p = pos + consumed;
        proof {
            let sub = bytes@.subrange(pos as int, bytes@.len() as int);
            assert(spec_decode_varint(sub) == Ok::<(u64, nat), FormatError>((len, consumed as nat)));
        }
        if len > (usize::MAX - p) as u64 {
            assert(p + len > usize::MAX);
            return Err(FormatError::SectionIdOverflow);
        }
        let end = p + len as usize;
        assert(end == p + len);
        if end > bytes.len() {
            return Err(FormatError::TruncatedSectionId);
        }
        let id = match utf8_to_string(slice_subrange(bytes, p, end)) {
            Some(s) => s,
            None => return Err(FormatError::InvalidUtf8),
        };
        let ghost old_table = table@.map_values(|s: String| s@);
        table.push(id);
        proof {
            assert(table@.map_values(|s: String| s@) =~= old_table.push(id@));
            match spec_parse_strings(bytes@, end as nat, (count - i - 1) as nat) {
                Ok((rest, q)) => {
                    assert(old_table + (seq![id@] + rest) =~= old_table.push(id@) + rest);
                },
                Err(e) => {},
            }
        }
        pos = end;
        i = i + 1;
    }
    assert(table@.map_values(|s: String| s@) + Seq::<Seq<char>>::empty() =~= table@.map_values(|s: String| s@));
    Ok((table, pos))
}


/// Reading one length-prefixed string back from its entry.
proof fn lemma_string_entry_read(bytes: Seq<u8>, pos: nat, c: Seq<char>)
    requires
        pos + spec_string_entry(c).len() <= bytes.len() <= usize::MAX,
        bytes.subrange(pos as int, pos as int + spec_string_entry(c).len()) == spec_string_entry(c),
    ensures
        ({
            let e = encode_utf8(c);
            let vl = spec_varint(e.len() as u64).len();
            &&& spec_decode_varint(bytes.subrange(pos as int, bytes.len() as int))
                == Ok::<(u64, nat), FormatError>((e.len() as u64, vl))
            &&& spec_string_entry(c).len() == vl + e.len()
            &&& bytes.subrange(pos as int + vl, pos as int + vl + e.len()) == e
            &&& valid_utf8(e)
            &&& decode_utf8(e) == c
        }),
{
    let e = encode_utf8(c);
    let v = spec_varint(e.len() as u64);
    let entry = spec_string_entry(c);
    let tail = bytes.subrange(pos as int + entry.len(), bytes.len() as int);
    assert(bytes.subrange(pos as int, bytes.len() as int) =~= v + (e + tail));
    lemma_varint_roundtrip(e.len() as u64, e + tail);
    assert(e.len() <= u64::MAX);
    assert((e.len() as u64) as nat == e.len());
    assert(bytes.subrange(pos as int + v.len(), pos as int + v.len() + e.len()) =~= e) by {
        assert forall|j: int| 0 <= j < e.len() implies bytes.subrange(pos as int + v.len(), pos as int + v.len() + e.len())[j] == e[j] by {
            assert(bytes[pos + v.len() + j] == entry[v.len() + j]);
        }
    }
    vstd::utf8::encode_utf8_valid_utf8(c);
    vstd::utf8::encode_utf8_decode_utf8(c);
}

proof fn lemma_parse_strings_roundtrip(bytes: Seq<u8>, pos: nat, ids: Seq<Seq<char>>)
    requires
        pos + concat_map(ids, |s: Seq<char>| spec_string_entry(s)).len() <= bytes.len() <= usize::MAX,
        bytes.subrange(pos as int, pos as int + concat_map(ids, |s: Seq<char>| spec_string_entry(s)).len())
            == concat_map(ids, |s: Seq<char>| spec_string_entry(s)),
    ensures
        spec_parse_strings(bytes, pos, ids.len()) == Ok::<(Seq<Seq<char>>, nat), FormatError>(
            (ids, pos + concat_map(ids, |s: Seq<char>| spec_string_entry(s)).len())),
    decreases ids.len(),
{
    let f = |s: Seq<char>| spec_string_entry(s);
    let cm = concat_map(ids, f);
    if ids.len() == 0 {
        assert(ids =~= Seq::<Seq<char>>::empty());
    } else {
        lemma_concat_map_front(ids, f);
        let first = f(ids[0]);
        let rest = concat_map(ids.drop_first(), f);
        assert(bytes.subrange(pos as int, pos as int + first.len()) =~= first) by {
            assert forall|j: int| 0 <= j < first.len() implies bytes.subrange(pos as int, pos as int + first.len())[j] == first[j] by {
                assert(bytes.subrange(pos as int, pos as int + cm.len())[j] == cm[j]);
            }
        }
        lemma_string_entry_read(bytes, pos, ids[0]);
        let next = pos + first.len();
        assert(bytes.subrange(next as int, next as int + rest.len()) =~= rest) by {
            assert forall|j: int| 0 <= j < rest.len() implies bytes.subrange(next as int, next as int + rest.len())[j] == rest[j] by {
                assert(bytes.subrange(pos as int, pos as int + cm.len())[first.len() + j] == cm[first.len() + j]);
            }
        }
        lemma_parse_strings_roundtrip(bytes, next as nat, ids.drop_first());
        assert(seq![ids[0]] + ids.drop_first() =~= ids);
    }
}

/// Decoding an encoded section table, followed by any bytes, gives back the
/// ids and the length of the encoding.
pub proof fn lemma_section_table_roundtrip(ids: Seq<Seq<char>>, rest: Seq<u8>)
    requires
        (spec_encode_section_table(ids) + rest).len() <= usize::MAX,
    ensures
        spec_decode_section_table(spec_encode_section_table(ids) + rest)
            == Ok::<(Seq<Seq<char>>, nat), FormatError>((ids, spec_encode_section_table(ids).len())),
{
    let f = |s: Seq<char>| spec_string_entry(s);
    let cm = concat_map(ids, f);
    let v = spec_varint(ids.len() as u64);
    let b = spec_encode_section_table(ids) + rest;
    assert(b =~= v + (cm + rest));
    lemma_varint_roundtrip(ids.len() as u64, cm + rest);
    lemma_entries_at_least_count(ids);
    assert((ids.len() as u64) as nat == ids.len());
    assert(b.subrange(v.len() as int, v.len() as int + cm.len()) =~= cm);
    lemma_parse_strings_roundtrip(b, v.len(), ids);
}

proof fn lemma_entries_at_least_count(ids: Seq<Seq<char>>)
    ensures
        concat_map(ids, |s: Seq<char>| spec_string_entry(s)).len() >= ids.len(),
    decreases ids.len(),
{
    if ids.len() > 0 {
        lemma_entries_at_least_count(ids.drop_last());
        lemma_varint_len(encode_utf8(ids.last()).len() as u64);
    }
}


// ============================================================================
// SUFFIX ARRAY ENCODING (separated streams)
// ============================================================================

/// Largest posting list a file may declare (suffix arrays may hold ten times as many).
pub const MAX_POSTING_SIZE: usize = 10_000_000;

/// Two little-endian bytes of `v`.
pub open spec fn spec_u16_le(v: u16) -> Seq<u8> {
    seq![(v % 256) as u8, (v / 256) as u8]
}

/// The encoded suffix array: the count, every term ordinal as a 16-bit
/// little-endian value (truncated to 16 bits), then every offset as a varint.
pub open spec fn spec_encode_suffix_array(entries: Seq<(u32, u32)>) -> Seq<u8> {
    spec_varint(entries.len() as u64) + spec_term_ord_stream(entries) + spec_offset_stream(entries)
}

/// Every term ordinal as 16 bits, little-endian.
pub open spec fn spec_term_ord_stream(entries: Seq<(u32, u32)>) -> Seq<u8> {
    concat_map(entries, |e: (u32, u32)| spec_u16_le(e.0 as u16))
}

/// Every offset as a varint.
pub open spec fn spec_offset_stream(entries: Seq<(u32, u32)>) -> Seq<u8> {
    concat_map(entries, |e: (u32, u32)| spec_varint(e.1 as u64))
}

/// Reading `k` varints starting at `pos`, failing with `eof` where a varint
/// would have to start at or past the end.
pub open spec fn spec_parse_varints(bytes: Seq<u8>, pos: nat, k: nat, eof: FormatError) -> Result<(Seq<u64>, nat), FormatError>
    decreases k,
{
    if k == 0 {
        Ok((Seq::<u64>::empty(), pos))
    } else if pos >= bytes.len() {
        Err(eof)
    } else {
        match spec_decode_varint(bytes.subrange(pos as int, bytes.len() as int)) {
            Err(e) => Err(e),
            Ok((v, c)) => match spec_parse_varints(bytes, pos + c, (k - 1) as nat, eof) {
                Err(e) => Err(e),
                Ok((rest, q)) => Ok((seq![v] + rest, q)),
            },
        }
    }
}

/// The 16-bit little-endian value at `bytes[at]`, `bytes[at + 1]`.
pub open spec fn spec_read_u16(bytes: Seq<u8>, at: int) -> u16 {
    (bytes[at] as int + 256 * bytes[at + 1] as int) as u16
}

/// What decoding a suffix array yields: the entries and the bytes consumed.
pub open spec fn spec_decode_suffix_array(bytes: Seq<u8>) -> Result<(Seq<(u32, u32)>, nat), FormatError> {
    match spec_decode_varint(bytes) {
        Err(e) => Err(e),
        Ok((count, p)) => if count > MAX_POSTING_SIZE * 10 {
            Err(FormatError::SuffixArrayTooLarge)
        } else if count == 0 {
            Ok((Seq::<(u32, u32)>::empty(), p))
        } else if p + 2 * count > bytes.len() {
            Err(FormatError::TruncatedSuffixArrayTermOrds)
        } else {
            match spec_parse_varints(bytes, (p + 2 * count) as nat, count as nat, FormatError::TruncatedSuffixArrayOffset) {
                Err(e) => Err(e),
                Ok((offsets, q)) => Ok((
                    Seq::new(count as nat, |i: int| (spec_read_u16(bytes, p + 2 * i) as u32, #[verifier::truncate] (offsets[i] as u32))),
                    q,
                )),
            }
        }
    }
}

/// Encode suffix array (brotli-friendly layout)
///
/// Separates term_ord and offset into distinct streams: the count as a
/// varint, all term ordinals as fixed 16-bit little-endian values, then all
/// offsets as varints.
pub fn encode_suffix_array(entries: &[(u32, u32)], buf: &mut Vec<u8>)
    ensures
        final(buf)@ == old(buf)@ + spec_encode_suffix_array(entries@),
{
    let ghost f = |e: (u32, u32)| spec_u16_le(e.0 as u16);
    let ghost g = |e: (u32, u32)| spec_varint(e.1 as u64);
    encode_varint(entries.len() as u64, buf);
    if entries.len() == 0 {
        assert(concat_map(entries@, f) =~= Seq::<u8>::empty());
        assert(concat_map(entries@, g) =~= Seq::<u8>::empty());
        assert(buf@ =~= old(buf)@ + spec_encode_suffix_array(entries@));
        return;
    }
    let ghost start = buf@;
    let mut i: usize = 0;
    while i < entries.len()
        invariant
            i <= entries@.len(),
            f == (|e: (u32, u32)| spec_u16_le(e.0 as u16)),
            buf@ == start + concat_map(entries@.take(i as int), f),
        decreases entries@.len() - i,
    {
        let t = entries[i].0 as u16;
        buf.push((t % 256) as u8);
        buf.push((t / 256) as u8);
        proof {
            assert(entries@.take(i as int + 1) =~= entries@.take(i as int).push(entries@[i as int]));
            lemma_concat_map_push(entries@.take(i as int), entries@[i as int], f);
            assert(buf@ =~= start + concat_map(entries@.take(i as int + 1), f));
        }
        i = i + 1;
    }
    assert(entries@.take(entries@.len() as int) =~= entries@);
    let ghost mid = buf@;
    let mut j: usize = 0;
    while j < entries.len()
        invariant
            j <= entries@.len(),
            g == (|e: (u32, u32)| spec_varint(e.1 as u64)),
            buf@ == mid + concat_map(entries@.take(j as int), g),
        decreases entries@.len() - j,
    {
        encode_varint(entries[j].1 as u64, buf);
        proof {
            assert(entries@.take(j as int + 1) =~= entries@.take(j as int).push(entries@[j as int]));
            lemma_concat_map_push(entries@.take(j as int), entries@[j as int], g);
        }
        j = j + 1;
    }
    assert(buf@ =~= old(buf)@ + spec_encode_suffix_array(entries@));
}

/// Read `count` varints starting at `bytes[pos]`.
pub(crate) fn decode_varints_at(bytes: &[u8], pos: usize, count: usize, eof: FormatError) -> (r: Result<(Vec<u64>, usize), FormatError>)
    requires
        pos <= bytes@.len(),
    ensures
        match spec_parse_varints(bytes@, pos as nat, count as nat, eof) {
            Ok((vals, q)) => r matches Ok((v, m)) && v@ == vals && m == q,
            Err(e) => r == Err::<(Vec<u64>, usize), FormatError>(e),
        },
        r matches Ok((v, m)) ==> v@.len() == count && pos <= m <= bytes@.len(),
{
    let ghost total = spec_parse_varints(bytes@, pos as nat, count as nat, eof);
    let mut vals: Vec<u64> = Vec::new();
    let mut p = pos;
    let mut j: usize = 0;
    while j < count
        invariant
            j <= count,
            pos <= p <= bytes@.len(),
            vals@.len() == j,
            total == spec_parse_varints(bytes@, pos as nat, count as nat, eof),
            match spec_parse_varints(bytes@, p as nat, (count - j) as nat, eof) {
                Ok((rest, q)) => total == Ok::<(Seq<u64>, nat), FormatError>((vals@ + rest, q)),
                Err(e) => total == Err::<(Seq<u64>, nat), FormatError>(e),
            },
        decreases count - j,
    {
        if p >= bytes.len() {
            return Err(eof);
        }
        let (v, consumed) = match decode_varint_at(bytes, p) {
            Ok(x) => x,
            Err(e) => return Err(e),
        };
        let ghost old_vals = vals@;
        vals.push(v);
        proof {
            match spec_parse_varints(bytes@, (p + consumed) as nat, (count - j - 1) as nat, eof) {
                Ok((rest, q)) => {
                    assert(old_vals + (seq![v] + rest) =~= old_vals.push(v) + rest);
                },
                Err(e) => {},
            }
        }
        p = p + consumed;
        j = j + 1;
    }
    assert(vals@ + Seq::<u64>::empty() =~= vals@);
    Ok((vals, p))
}

/// Decode suffix array (brotli-friendly layout)
pub fn decode_suffix_array(bytes: &[u8]) -> (r: Result<(Vec<(u32, u32)>, usize), FormatError>)
    ensures
        match spec_decode_suffix_array(bytes@) {
            Ok((entries, n)) => r matches Ok((v, m)) && v@ == entries && m == n,
            Err(e) => r == Err::<(Vec<(u32, u32)>, usize), FormatError>(e),
        },
{
    let (count64, pos) = match decode_varint(bytes) {
        Ok(x) => x,
        Err(e) => return Err(e),
    };
    if count64 > (MAX_POSTING_SIZE * 10) as u64 {
        return Err(FormatError::SuffixArrayTooLarge);
    }
    let count = count64 as usize;
    if count == 0 {
        return Ok((Vec::new(), pos));
    }
    if count * 2 > bytes.len() - pos {
        return Err(FormatError::TruncatedSuffixArrayTermOrds);
    }
    let mut term_ords: Vec<u32> = Vec::new();
    let mut i: usize = 0;
    while i < count
        invariant
            i <= count,
            count == count64,
            count <= MAX_POSTING_SIZE * 10,
            pos + count * 2 <= bytes@.len(),
            bytes@.len() <= usize::MAX,
            term_ords@.len() == i,
            forall|k: int| 0 <= k < i ==> term_ords@[k] == spec_read_u16(bytes@, pos + 2 * k) as u32,
        decreases count - i,
    {
        let offset = pos + i * 2;
        let term_ord: u16 = (bytes[offset] as u16) + 256 * (bytes[offset + 1] as u16);
        term_ords.push(term_ord as u32);
        i = i + 1;
    }
    let (offsets, end) = match decode_varints_at(bytes, pos + count * 2, count, FormatError::TruncatedSuffixArrayOffset) {
        Ok(x) => x,
        Err(e) => return Err(e),
    };
    let mut result: Vec<(u32, u32)> = Vec::new();
    let mut k: usize = 0;
    while k < count
        invariant
            k <= count,
            term_ords@.len() == count,
            offsets@.len() == count,
            result@.len() == k,
            forall|m: int| 0 <= m < k ==> result@[m] == (term_ords@[m], #[verifier::truncate] (offsets@[m] as u32)),
        decreases count - k,
    {
        result.push((term_ords[k], #[verifier::truncate] (offsets[k] as u32)));
        k = k + 1;
    }
    proof {
        let expected = Seq::new(count as nat, |m: int| (spec_read_u16(bytes@, pos + 2 * m) as u32, #[verifier::truncate] (offsets@[m] as u32)));
        assert(result@ =~= expected);
    }
    Ok((result, end))
}


proof fn lemma_u16_stream_len(entries: Seq<(u32, u32)>)
    ensures
        spec_term_ord_stream(entries).len() == 2 * entries.len(),
    decreases entries.len(),
{
    if entries.len() > 0 {
        lemma_u16_stream_len(entries.drop_last());
    }
}

proof fn lemma_u16_stream_at(entries: Seq<(u32, u32)>, i: int)
    requires
        0 <= i < entries.len(),
    ensures
        spec_term_ord_stream(entries)[2 * i] == (entries[i].0 as u16 % 256) as u8,
        spec_term_ord_stream(entries)[2 * i + 1] == (entries[i].0 as u16 / 256) as u8,
    decreases entries.len(),
{
    let f = |e: (u32, u32)| spec_u16_le(e.0 as u16);
    let init = entries.drop_last();
    lemma_u16_stream_len(init);
    let cm = spec_term_ord_stream(entries);
    assert(cm == spec_term_ord_stream(init) + f(entries.last()));
    if i < init.len() {
        lemma_u16_stream_at(init, i);
        assert(init[i] == entries[i]);
    } else {
        let last = entries.last();
        assert(entries[i] == last);
    }
}

proof fn lemma_parse_offsets_roundtrip(bytes: Seq<u8>, pos: nat, entries: Seq<(u32, u32)>, eof: FormatError)
    requires
        pos + concat_map(entries, |e: (u32, u32)| spec_varint(e.1 as u64)).len() <= bytes.len(),
        bytes.subrange(pos as int, pos as int + concat_map(entries, |e: (u32, u32)| spec_varint(e.1 as u64)).len())
            == concat_map(entries, |e: (u32, u32)| spec_varint(e.1 as u64)),
    ensures
        spec_parse_varints(bytes, pos, entries.len(), eof) matches Ok((vals, q))
            && q == pos + concat_map(entries, |e: (u32, u32)| spec_varint(e.1 as u64)).len()
            && vals.len() == entries.len()
            && forall|i: int| 0 <= i < entries.len() ==> vals[i] == entries[i].1 as u64,
    decreases entries.len(),
{
    let g = |e: (u32, u32)| spec_varint(e.1 as u64);
    let cm = concat_map(entries, g);
    if entries.len() > 0 {
        lemma_concat_map_front(entries, g);
        let first = g(entries[0]);
        let rest = concat_map(entries.drop_first(), g);
        lemma_varint_len(entries[0].1 as u64);
        let tail = bytes.subrange(pos as int + first.len(), bytes.len() as int);
        assert(bytes.subrange(pos as int, bytes.len() as int) =~= first + tail) by {
            assert forall|j: int| 0 <= j < first.len() implies bytes[pos + j] == first[j] by {
                assert(bytes.subrange(pos as int, pos as int + cm.len())[j] == cm[j]);
            }
        }
        lemma_varint_roundtrip(entries[0].1 as u64, tail);
        let next = (pos + first.len()) as nat;
        assert(bytes.subrange(next as int, next as int + rest.len()) =~= rest) by {
            assert forall|j: int| 0 <= j < rest.len() implies bytes.subrange(next as int, next as int + rest.len())[j] == rest[j] by {
                assert(bytes.subrange(pos as int, pos as int + cm.len())[first.len() + j] == cm[first.len() + j]);
            }
        }
        lemma_parse_offsets_roundtrip(bytes, next, entries.drop_first(), eof);
        let (vals, q) = spec_parse_varints(bytes, next, (entries.len() - 1) as nat, eof)->Ok_0;
        assert(spec_parse_varints(bytes, pos, entries.len(), eof) == Ok::<(Seq<u64>, nat), FormatError>((seq![entries[0].1 as u64] + vals, q)));
        assert forall|i: int| 0 <= i < entries.len() implies #[trigger] (seq![entries[0].1 as u64] + vals)[i] == entries[i].1 as u64 by {
            if i > 0 {
                assert(entries.drop_first()[i - 1] == entries[i]);
            }
        }
    }
}

/// Decoding an encoded suffix array, followed by any bytes, gives back the
/// entries and the length of the encoding, whenever every term ordinal fits
/// the 16-bit stream and the count is within the format's limit.
pub proof fn lemma_suffix_array_roundtrip(entries: Seq<(u32, u32)>, rest: Seq<u8>)
    requires
        entries.len() <= MAX_POSTING_SIZE * 10,
        forall|i: int| 0 <= i < entries.len() ==> entries[i].0 < 0x10000,
    ensures
        spec_decode_suffix_array(spec_encode_suffix_array(entries) + rest)
            == Ok::<(Seq<(u32, u32)>, nat), FormatError>((entries, spec_encode_suffix_array(entries).len())),
{
    let f = |e: (u32, u32)| spec_u16_le(e.0 as u16);
    let g = |e: (u32, u32)| spec_varint(e.1 as u64);
    let v = spec_varint(entries.len() as u64);
    let a = concat_map(entries, f);
    let c = concat_map(entries, g);
    let b = spec_encode_suffix_array(entries) + rest;
    assert(b =~= v + (a + c + rest));
    lemma_varint_roundtrip(entries.len() as u64, a + c + rest);
    assert((entries.len() as u64) as nat == entries.len());
    if entries.len() == 0 {
        assert(entries =~= Seq::<(u32, u32)>::empty());
        assert(a =~= Seq::<u8>::empty());
        assert(c =~= Seq::<u8>::empty());
    } else {
        lemma_u16_stream_len(entries);
        let p = v.len();
        let q0 = (p + 2 * entries.len()) as nat;
        assert(b.subrange(q0 as int, q0 as int + c.len()) =~= c) by {
            assert forall|j: int| 0 <= j < c.len() implies b.subrange(q0 as int, q0 as int + c.len())[j] == c[j] by {
                assert(b[q0 + j] == (v + (a + c + rest))[q0 + j]);
            }
        }
        lemma_parse_offsets_roundtrip(b, q0, entries, FormatError::TruncatedSuffixArrayOffset);
        let (vals, q) = spec_parse_varints(b, q0, entries.len(), FormatError::TruncatedSuffixArrayOffset)->Ok_0;
        let decoded = Seq::new(entries.len(), |i: int| (spec_read_u16(b, p + 2 * i) as u32, #[verifier::truncate] (vals[i] as u32)));
        assert forall|i: int| 0 <= i < entries.len() implies decoded[i] == entries[i] by {
            lemma_u16_stream_at(entries, i);
            assert(b[p + 2 * i] == a[2 * i]);
            assert(b[p + 2 * i + 1] == a[2 * i + 1]);
            let t = entries[i].0 as u16;
            assert(t as int == entries[i].0 as int);
            assert(((t % 256) as int + 256 * (t / 256) as int) as u16 == t);
            assert(vals[i] == entries[i].1 as u64);
        }
        assert(decoded =~= entries);
    }
}


// ============================================================================
// VOCABULARY ENCODING (front compression)
// ============================================================================

/// Length of the longest common prefix of `a` and `b`.
pub open spec fn spec_common_prefix_len(a: Seq<u8>, b: Seq<u8>) -> nat
    decreases a.len(),
{
    if a.len() == 0 || b.len() == 0 || a[0] != b[0] {
        0
    } else {
        1 + spec_common_prefix_len(a.drop_first(), b.drop_first())
    }
}

proof fn lemma_common_prefix(a: Seq<u8>, b: Seq<u8>)
    ensures
        spec_common_prefix_len(a, b) <= a.len(),
        spec_common_prefix_len(a, b) <= b.len(),
        a.take(spec_common_prefix_len(a, b) as int) == b.take(spec_common_prefix_len(a, b) as int),
        spec_common_prefix_len(a, b) < a.len() && spec_common_prefix_len(a, b) < b.len()
            ==> a[spec_common_prefix_len(a, b) as int] != b[spec_common_prefix_len(a, b) as int],
    decreases a.len(),
{
    let n = spec_common_prefix_len(a, b);
    if a.len() == 0 || b.len() == 0 || a[0] != b[0] {
        assert(a.take(0) =~= b.take(0));
    } else {
        lemma_common_prefix(a.drop_first(), b.drop_first());
        let m = spec_common_prefix_len(a.drop_first(), b.drop_first());
        assert(a.take(n as int) =~= b.take(n as int)) by {
            assert forall|j: int| 0 <= j < n implies a.take(n as int)[j] == b.take(n as int)[j] by {
                if j > 0 {
                    assert(a.drop_first().take(m as int)[j - 1] == b.drop_first().take(m as int)[j - 1]);
                }
            }
        }
        if n < a.len() && n < b.len() {
            assert(a[n as int] == a.drop_first()[m as int]);
            assert(b[n as int] == b.drop_first()[m as int]);
        }
    }
}

/// Calculate the common prefix length between two byte slices.
pub(crate) fn common_prefix_len(a: &[u8], b: &[u8]) -> (n: usize)
    ensures
        n == spec_common_prefix_len(a@, b@),
{
    let mut i: usize = 0;
    assert(a@.skip(0) =~= a@);
    assert(b@.skip(0) =~= b@);
    while i < a.len() && i < b.len() && a[i] == b[i]
        invariant
            i <= a@.len(),
            i <= b@.len(),
            spec_common_prefix_len(a@, b@) == i + spec_common_prefix_len(a@.skip(i as int), b@.skip(i as int)),
        decreases a@.len() - i,
    {
        proof {
            let sa = a@.skip(i as int);
            let sb = b@.skip(i as int);
            assert(sa.drop_first() =~= a@.skip(i as int + 1));
            assert(sb.drop_first() =~= b@.skip(i as int + 1));
            assert(sa[0] == a@[i as int]);
            assert(sb[0] == b@[i as int]);
        }
        i = i + 1;
    }
    proof {
        let sa = a@.skip(i as int);
        let sb = b@.skip(i as int);
        if i < a@.len() && i < b@.len() {
            assert(sa[0] == a@[i as int]);
            assert(sb[0] == b@[i as int]);
        }
    }
    i
}

/// One front-compressed term: shared prefix length, suffix length, suffix.
pub open spec fn spec_vocab_entry(prev: Seq<u8>, cur: Seq<u8>) -> Seq<u8> {
    let shared = spec_common_prefix_len(prev, cur);
    spec_varint(shared as u64) + spec_varint((cur.len() - shared) as u64)
        + cur.subrange(shared as int, cur.len() as int)
}

/// The term before position `i` (the empty sequence for the first term).
pub open spec fn spec_prev_term(terms: Seq<Seq<u8>>, i: int) -> Seq<u8> {
    if i == 0 { Seq::<u8>::empty() } else { terms[i - 1] }
}

/// Front-compressed encoding of a sequence of byte strings.
pub open spec fn spec_encode_vocab_bytes(terms: Seq<Seq<u8>>) -> Seq<u8>
    decreases terms.len(),
{
    if terms.len() == 0 {
        Seq::<u8>::empty()
    } else {
        spec_encode_vocab_bytes(terms.drop_last())
            + spec_vocab_entry(spec_prev_term(terms, terms.len() - 1), terms.last())
    }
}

/// Front-compressed encoding of a vocabulary (each term as UTF-8).
pub open spec fn spec_encode_vocabulary(terms: Seq<Seq<char>>) -> Seq<u8> {
    spec_encode_vocab_bytes(terms.map_values(|t: Seq<char>| encode_utf8(t)))
}

/// Encode vocabulary with front compression.
///
/// Since the vocabulary is sorted, consecutive terms share prefixes.
/// Format per term: [shared_prefix_len: varint][suffix_len: varint][suffix: bytes]
pub fn encode_vocabulary(vocabulary: &[String], out: &mut Vec<u8>)
    ensures
        final(out)@ == old(out)@ + spec_encode_vocabulary(vocabulary@.map_values(|s: String| s@)),
{
    let ghost terms = vocabulary@.map_values(|s: String| s@).map_values(|t: Seq<char>| encode_utf8(t));
    let ghost start = out@;
    let mut prev: &[u8] = &[];
    let mut i: usize = 0;
    while i < vocabulary.len()
        invariant
            i <= vocabulary@.len(),
            terms == vocabulary@.map_values(|s: String| s@).map_values(|t: Seq<char>| encode_utf8(t)),
            terms.len() == vocabulary@.len(),
            prev@ == spec_prev_term(terms, i as int),
            out@ == start + spec_encode_vocab_bytes(terms.take(i as int)),
        decreases vocabulary@.len() - i,
    {
        let bytes = vocabulary[i].as_str().as_bytes();
        assert(bytes@ == terms[i as int]);
        let shared = common_prefix_len(prev, bytes);
        proof { lemma_common_prefix(prev@, bytes@); }
        encode_varint(shared as u64, out);
        encode_varint((bytes.len() - shared) as u64, out);
        append_bytes(out, slice_subrange(bytes, shared, bytes.len()));
        proof {
            let t = terms.take(i as int + 1);
            assert(t.drop_last() =~= terms.take(i as int));
            assert(spec_prev_term(t, i as int) == spec_prev_term(terms, i as int));
            assert(out@ =~= start + spec_encode_vocab_bytes(t));
        }
        prev = bytes;
        i = i + 1;
    }
    assert(terms.take(terms.len() as int) =~= terms);
}

/// Reading `k` front-compressed terms starting at `pos`, the term before
/// them being `prev`.
pub open spec fn spec_parse_vocab(bytes: Seq<u8>, pos: nat, prev: Seq<u8>, k: nat) -> Result<Seq<Seq<char>>, FormatError>
    decreases k,
{
    if k == 0 {
        Ok(Seq::<Seq<char>>::empty())
    } else if pos >= bytes.len() {
        Err(FormatError::TruncatedVocabulary)
    } else {
        match spec_decode_varint(bytes.subrange(pos as int, bytes.len() as int)) {
            Err(e) => Err(e),
            Ok((shared, c1)) => if shared > prev.len() {
                Err(FormatError::InvalidSharedPrefix)
            } else {
                let p1 = pos + c1;
                match spec_decode_varint(bytes.subrange(p1 as int, bytes.len() as int)) {
                    Err(e) => Err(e),
                    Ok((sl, c2)) => {
                        let p2 = p1 + c2;
                        if p2 + sl > usize::MAX {
                            Err(FormatError::TermSuffixOverflow)
                        } else if p2 + sl > bytes.len() {
                            Err(FormatError::TruncatedTermSuffix)
                        } else {
                            let term = prev.take(shared as int) + bytes.subrange(p2 as int, p2 as int + sl);
                            if !valid_utf8(term) {
                                Err(FormatError::InvalidUtf8)
                            } else {
                                match spec_parse_vocab(bytes, (p2 + sl) as nat, term, (k - 1) as nat) {
                                    Err(e) => Err(e),
                                    Ok(rest) => Ok(seq![decode_utf8(term)] + rest),
                                }
                            }
                        }
                    },
                }
            },
        }
    }
}

/// Decode vocabulary with front compression.
#[verifier::rlimit(50)]
pub fn decode_vocabulary(bytes: &[u8], term_count: usize) -> (r: Result<Vec<String>, FormatError>)
    ensures
        match spec_parse_vocab(bytes@, 0, Seq::<u8>::empty(), term_count as nat) {
            Ok(terms) => r matches Ok(v) && v@.map_values(|s: String| s@) == terms,
            Err(e) => r == Err::<Vec<String>, FormatError>(e),
        },
{
    let ghost total = spec_parse_vocab(bytes@, 0, Seq::<u8>::empty(), term_count as nat);
    let mut terms: Vec<String> = Vec::new();
    let mut pos: usize = 0;
    let mut prev_bytes: Vec<u8> = Vec::new();
    let mut i: usize = 0;
    while i < term_count
        invariant
            i <= term_count,
            pos <= bytes@.len(),
            total == spec_parse_vocab(bytes@, 0, Seq::<u8>::empty(), term_count as nat),
            match spec_parse_vocab(bytes@, pos as nat, prev_bytes@, (term_count - i) as nat) {
                Ok(rest) => total == Ok::<Seq<Seq<char>>, FormatError>(terms@.map_values(|s: String| s@) + rest),
                Err(e) => total == Err::<Seq<Seq<char>>, FormatError>(e),
            },
        decreases term_count - i,
    {
        if pos >= bytes.len() {
            return Err(FormatError::TruncatedVocabulary);
        }
        let (shared, c1) = match decode_varint_at(bytes, pos) {
            Ok(x) => x,
            Err(e) => return Err(e),
        };
        if shared > prev_bytes.len() as u64 {
            return Err(FormatError::InvalidSharedPrefix);
        }
        let shared = shared as usize;
        let p1 = pos + c1;
        let (suffix_len, c2) = match decode_varint_at(bytes, p1) {
            Ok(x) => x,
            Err(e) => return Err(e),
        };
        let p2 = p1 + c2;
        if suffix_len > (usize::MAX - p2) as u64 {
            assert(p2 + suffix_len > usize::MAX);
            return Err(FormatError::TermSuffixOverflow);
        }
        let end = p2 + suffix_len as usize;
        if end > bytes.len() {
            return Err(FormatError::TruncatedTermSuffix);
        }
        let mut term_bytes: Vec<u8> = Vec::new();
        append_bytes(&mut term_bytes, slice_subrange(prev_bytes.as_slice(), 0, shared));
        append_bytes(&mut term_bytes, slice_subrange(bytes, p2, end));
        assert(term_bytes@ =~= prev_bytes@.take(shared as int) + bytes@.subrange(p2 as int, end as int));
        let term = match utf8_to_string(term_bytes.as_slice()) {
            Some(t) => t,
            None => return Err(FormatError::InvalidUtf8),
        };
        let ghost old_terms = terms@.map_values(|s: String| s@);
        terms.push(term);
        proof {
            assert(terms@.map_values(|s: String| s@) =~= old_terms.push(term@));
            match spec_parse_vocab(bytes@, end as nat, term_bytes@, (term_count - i - 1) as nat) {
                Ok(rest) => {
                    assert(old_terms + (seq![term@] + rest) =~= old_terms.push(term@) + rest);
                },
                Err(e) => {},
            }
        }
        pos = end;
        prev_bytes = term_bytes;
        i = i + 1;
    }
    assert(terms@.map_values(|s: String| s@) + Seq::<Seq<char>>::empty() =~= terms@.map_values(|s: String| s@));
    Ok(terms)
}


/// If the bytes from `pos` on are `a + b`, the bytes from `pos + a.len()` on are `b`.
pub proof fn lemma_subrange_skip(bytes: Seq<u8>, pos: int, a: Seq<u8>, b: Seq<u8>)
    requires
        0 <= pos <= bytes.len(),
        bytes.subrange(pos, bytes.len() as int) == a + b,
    ensures
        bytes.subrange(pos + a.len(), bytes.len() as int) == b,
{
    assert((a + b).len() == bytes.len() - pos);
    assert forall|j: int| 0 <= j < b.len() implies bytes.subrange(pos + a.len(), bytes.len() as int)[j] == b[j] by {
        assert(bytes.subrange(pos, bytes.len() as int)[a.len() + j] == (a + b)[a.len() + j]);
        assert(bytes.subrange(pos, bytes.len() as int)[a.len() + j] == bytes[pos + a.len() + j]);
        assert(bytes.subrange(pos + a.len(), bytes.len() as int)[j] == bytes[pos + a.len() + j]);
    }
    assert(bytes.subrange(pos + a.len(), bytes.len() as int) =~= b);
}

/// Front-compressed encoding of `terms`, the term before the first being `prev`.
pub open spec fn spec_encode_vocab_from(prev: Seq<u8>, terms: Seq<Seq<u8>>) -> Seq<u8>
    decreases terms.len(),
{
    if terms.len() == 0 {
        Seq::<u8>::empty()
    } else {
        spec_vocab_entry(prev, terms[0]) + spec_encode_vocab_from(terms[0], terms.drop_first())
    }
}

proof fn lemma_vocab_from_push(prev: Seq<u8>, terms: Seq<Seq<u8>>, x: Seq<u8>)
    ensures
        spec_encode_vocab_from(prev, terms.push(x)) == spec_encode_vocab_from(prev, terms)
            + spec_vocab_entry(if terms.len() == 0 { prev } else { terms.last() }, x),
    decreases terms.len(),
{
    if terms.len() == 0 {
        assert(terms.push(x).drop_first() =~= Seq::<Seq<u8>>::empty());
        assert(terms.push(x)[0] == x);
        assert(spec_encode_vocab_from(x, Seq::<Seq<u8>>::empty()) =~= Seq::<u8>::empty());
        assert(spec_encode_vocab_from(prev, terms) =~= Seq::<u8>::empty());
        assert(spec_encode_vocab_from(prev, terms.push(x)) =~= spec_vocab_entry(prev, x));
    } else {
        assert(terms.push(x).drop_first() =~= terms.drop_first().push(x));
        lemma_vocab_from_push(terms[0], terms.drop_first(), x);
        if terms.len() > 1 {
            assert(terms.drop_first().last() == terms.last());
        }
        assert(spec_encode_vocab_from(prev, terms.push(x)) =~= spec_encode_vocab_from(prev, terms)
            + spec_vocab_entry(terms.last(), x));
    }
}

proof fn lemma_vocab_back_front(terms: Seq<Seq<u8>>)
    ensures
        spec_encode_vocab_bytes(terms) == spec_encode_vocab_from(Seq::<u8>::empty(), terms),
    decreases terms.len(),
{
    if terms.len() > 0 {
        let init = terms.drop_last();
        lemma_vocab_back_front(init);
        lemma_vocab_from_push(Seq::<u8>::empty(), init, terms.last());
        assert(init.push(terms.last()) =~= terms);
        if init.len() > 0 {
            assert(init.last() == terms[terms.len() - 2]);
        }
    }
}

/// The term the next one is compressed against after `terms`.
pub open spec fn spec_last_term(prev: Seq<u8>, terms: Seq<Seq<u8>>) -> Seq<u8> {
    if terms.len() == 0 {
        prev
    } else {
        terms.last()
    }
}

/// Reading the encoded terms, and then `extra` more, reads the terms and
/// goes on right after their bytes.
#[verifier::spinoff_prover]
#[verifier::rlimit(40)]
proof fn lemma_parse_vocab_roundtrip(bytes: Seq<u8>, pos: nat, prev: Seq<u8>, terms: Seq<Seq<char>>, extra: nat)
    requires
        prev.len() <= usize::MAX,
        forall|i: int| 0 <= i < terms.len() ==> (#[trigger] encode_utf8(terms[i])).len() <= usize::MAX,
        pos + spec_encode_vocab_from(prev, terms.map_values(|t: Seq<char>| encode_utf8(t))).len() <= bytes.len() <= usize::MAX,
        bytes.subrange(pos as int, pos as int + spec_encode_vocab_from(prev, terms.map_values(|t: Seq<char>| encode_utf8(t))).len())
            == spec_encode_vocab_from(prev, terms.map_values(|t: Seq<char>| encode_utf8(t))),
    ensures
        spec_parse_vocab(bytes, pos, prev, terms.len() + extra) == match spec_parse_vocab(
            bytes,
            pos + spec_encode_vocab_from(prev, terms.map_values(|t: Seq<char>| encode_utf8(t))).len(),
            spec_last_term(prev, terms.map_values(|t: Seq<char>| encode_utf8(t))),
            extra,
        ) {
            Ok(r) => Ok::<Seq<Seq<char>>, FormatError>(terms + r),
            Err(e) => Err::<Seq<Seq<char>>, FormatError>(e),
        },
    decreases terms.len(),
{
    let tb = terms.map_values(|t: Seq<char>| encode_utf8(t));
    let enc = spec_encode_vocab_from(prev, tb);
    if terms.len() == 0 {
        assert(terms =~= Seq::<Seq<char>>::empty());
        match spec_parse_vocab(bytes, pos, prev, extra) {
            Ok(r) => {
                assert(terms + r =~= r);
            },
            Err(e) => {},
        }
    } else {
        let cur = tb[0];
        assert(cur == encode_utf8(terms[0]));
        let entry = spec_vocab_entry(prev, cur);
        let tail_enc = spec_encode_vocab_from(cur, tb.drop_first());
        assert(enc == entry + tail_enc);
        lemma_common_prefix(prev, cur);
        let shared = spec_common_prefix_len(prev, cur);
        let v1 = spec_varint(shared as u64);
        let v2 = spec_varint((cur.len() - shared) as u64);
        let suffix = cur.subrange(shared as int, cur.len() as int);
        assert(entry == v1 + v2 + suffix);
        lemma_varint_len(shared as u64);
        lemma_varint_len((cur.len() - shared) as u64);
        let after = bytes.subrange(pos as int + entry.len(), bytes.len() as int);
        assert forall|j: int| 0 <= j < entry.len() implies bytes[pos + j] == entry[j] by {
            assert(bytes.subrange(pos as int, pos as int + enc.len())[j] == enc[j]);
        }
        assert(bytes.subrange(pos as int, bytes.len() as int) =~= v1 + (v2 + suffix + after));
        lemma_varint_roundtrip(shared as u64, v2 + suffix + after);
        let p1 = pos + v1.len();
        lemma_subrange_skip(bytes, pos as int, v1, v2 + suffix + after);
        assert(v2 + suffix + after =~= v2 + (suffix + after));
        lemma_varint_roundtrip((cur.len() - shared) as u64, suffix + after);
        let p2 = p1 + v2.len();
        lemma_subrange_skip(bytes, p1 as int, v2, suffix + after);
        assert(bytes.subrange(p2 as int, p2 as int + suffix.len()) =~= suffix) by {
            assert forall|j: int| 0 <= j < suffix.len() implies bytes.subrange(p2 as int, p2 as int + suffix.len())[j] == suffix[j] by {
                assert(bytes.subrange(p2 as int, bytes.len() as int)[j] == (suffix + after)[j]);
            }
        }
        assert(prev.take(shared as int) + suffix =~= cur) by {
            assert forall|j: int| 0 <= j < cur.len() implies (prev.take(shared as int) + suffix)[j] == cur[j] by {
                if j < shared {
                    assert(prev.take(shared as int)[j] == cur.take(shared as int)[j]);
                }
            }
        }
        vstd::utf8::encode_utf8_valid_utf8(terms[0]);
        vstd::utf8::encode_utf8_decode_utf8(terms[0]);
        let next = pos + entry.len();
        assert(tb.drop_first() =~= terms.drop_first().map_values(|t: Seq<char>| encode_utf8(t)));
        assert forall|j: int| 0 <= j < tail_enc.len() implies bytes.subrange(next as int, next as int + tail_enc.len())[j] == tail_enc[j] by {
            assert(bytes.subrange(pos as int, pos as int + enc.len())[entry.len() + j] == enc[entry.len() + j]);
        }
        assert(bytes.subrange(next as int, next as int + tail_enc.len()) =~= tail_enc);
        assert forall|i: int| 0 <= i < terms.drop_first().len() implies (#[trigger] encode_utf8(terms.drop_first()[i])).len() <= usize::MAX by {
            assert(terms.drop_first()[i] == terms[i + 1]);
        }
        lemma_parse_vocab_roundtrip(bytes, next as nat, cur, terms.drop_first(), extra);
        assert(spec_last_term(cur, tb.drop_first()) == spec_last_term(prev, tb));
        assert(next + tail_enc.len() == pos + enc.len());
        assert(terms.drop_first().len() + extra == (terms.len() + extra - 1) as nat);
        match spec_parse_vocab(bytes, pos + enc.len(), spec_last_term(prev, tb), extra) {
            Ok(r) => {
                assert(seq![terms[0]] + (terms.drop_first() + r) =~= terms + r);
            },
            Err(e) => {},
        }
    }
}

/// Decoding an encoded vocabulary, followed by any bytes, gives back the
/// terms, whenever the whole input is addressable.
pub proof fn lemma_vocabulary_roundtrip(terms: Seq<Seq<char>>, rest: Seq<u8>)
    requires
        forall|i: int| 0 <= i < terms.len() ==> (#[trigger] encode_utf8(terms[i])).len() <= usize::MAX,
        (spec_encode_vocabulary(terms) + rest).len() <= usize::MAX,
    ensures
        spec_parse_vocab(spec_encode_vocabulary(terms) + rest, 0, Seq::<u8>::empty(), terms.len())
            == Ok::<Seq<Seq<char>>, FormatError>(terms),
{
    let tb = terms.map_values(|t: Seq<char>| encode_utf8(t));
    lemma_vocab_back_front(tb);
    let b = spec_encode_vocabulary(terms) + rest;
    assert(b.subrange(0, spec_encode_vocabulary(terms).len() as int) =~= spec_encode_vocabulary(terms));
    lemma_parse_vocab_roundtrip(b, 0, Seq::<u8>::empty(), terms, 0);
    assert(terms + Seq::<Seq<char>>::empty() =~= terms);
}

/// Asking for one term more than were encoded, with nothing after them,
/// fails: the vocabulary is truncated.
pub proof fn lemma_vocabulary_one_too_many(terms: Seq<Seq<char>>)
    requires
        forall|i: int| 0 <= i < terms.len() ==> (#[trigger] encode_utf8(terms[i])).len() <= usize::MAX,
        spec_encode_vocabulary(terms).len() <= usize::MAX,
    ensures
        spec_parse_vocab(spec_encode_vocabulary(terms), 0, Seq::<u8>::empty(), terms.len() + 1)
            == Err::<Seq<Seq<char>>, FormatError>(FormatError::TruncatedVocabulary),
{
    let tb = terms.map_values(|t: Seq<char>| encode_utf8(t));
    lemma_vocab_back_front(tb);
    let b = spec_encode_vocabulary(terms);
    assert(b.subrange(0, b.len() as int) =~= b);
    lemma_parse_vocab_roundtrip(b, 0, Seq::<u8>::empty(), terms, 1);
}

/// A term that claims to share more bytes with the term before it than
/// that term has is refused.
pub proof fn lemma_vocabulary_shared_prefix_refused(bytes: Seq<u8>, pos: nat, prev: Seq<u8>, k: nat)
    requires
        k >= 1,
        pos < bytes.len(),
        spec_decode_varint(bytes.subrange(pos as int, bytes.len() as int)) matches Ok((shared, _)) && shared > prev.len(),
    ensures
        spec_parse_vocab(bytes, pos, prev, k) == Err::<Seq<Seq<char>>, FormatError>(FormatError::InvalidSharedPrefix),
{
}

} // verus!
