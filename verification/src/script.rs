//! Text helpers for handing index bytes to a JavaScript runtime.

use vstd::prelude::*;
use vstd::utf8::{encode_utf8, is_ascii_chars, valid_utf8};

use crate::binary::encoding::utf8_to_string;

verus! {

/// The base64 digit for a six-bit value.
pub open spec fn b64_digit(v: int) -> u8 {
    if v < 26 {
        (65 + v) as u8
    } else if v < 52 {
        (97 + (v - 26)) as u8
    } else if v < 62 {
        (48 + (v - 52)) as u8
    } else if v == 62 {
        43u8
    } else {
        47u8
    }
}

/// Base64 of one group of up to three bytes: four digits, `=` standing for
/// the digits a short group lacks.
pub open spec fn b64_group(g: Seq<u8>) -> Seq<u8> {
    let b0 = g[0] as int;
    let b1 = if g.len() > 1 { g[1] as int } else { 0 };
    let b2 = if g.len() > 2 { g[2] as int } else { 0 };
    seq![
        b64_digit(b0 / 4),
        b64_digit((b0 % 4) * 16 + b1 / 16),
        if g.len() > 1 { b64_digit((b1 % 16) * 4 + b2 / 64) } else { 61u8 },
        if g.len() > 2 { b64_digit(b2 % 64) } else { 61u8 },
    ]
}

/// Standard base64 (with padding) of `bytes`, as ASCII bytes.
pub open spec fn spec_base64(bytes: Seq<u8>) -> Seq<u8>
    decreases bytes.len(),
{
    if bytes.len() == 0 {
        Seq::empty()
    } else if bytes.len() <= 3 {
        b64_group(bytes)
    } else {
        b64_group(bytes.take(3)) + spec_base64(bytes.skip(3))
    }
}

/// The characters of ASCII bytes.
pub open spec fn ascii_chars(bytes: Seq<u8>) -> Seq<char> {
    bytes.map_values(|b: u8| b as char)
}

/// The digit of "A-Za-z0-9+/" at position `v`.
fn b64_at(v: usize) -> (c: u8)
    requires
        v < 64,
    ensures
        c == b64_digit(v as int),
{
    if v < 26 {
        65 + v as u8
    } else if v < 52 {
        97 + (v - 26) as u8
    } else if v < 62 {
        48 + (v - 52) as u8
    } else if v == 62 {
        43
    } else {
        47
    }
}

proof fn lemma_base64_ascii(bytes: Seq<u8>)
    ensures
        forall|i: int| 0 <= i < spec_base64(bytes).len() ==> #[trigger] spec_base64(bytes)[i] < 128,
    decreases bytes.len(),
{
    if bytes.len() > 3 {
        lemma_base64_ascii(bytes.skip(3));
        let a = b64_group(bytes.take(3));
        let b = spec_base64(bytes.skip(3));
        assert forall|i: int| 0 <= i < (a + b).len() implies #[trigger] (a + b)[i] < 128 by {
            if i >= a.len() {
                assert((a + b)[i] == b[i - a.len()]);
            }
        }
    }
}

/// Base64 encode bytes for passing to JavaScript.
pub fn bytes_to_base64(bytes: &[u8]) -> (s: String)
    ensures
        s@ == ascii_chars(spec_base64(bytes@)),
{
    let mut out: Vec<u8> = Vec::new();
    let mut i: usize = 0;
    let ghost b = bytes@;
    assert(b.skip(0) =~= b);
    assert(out@ + spec_base64(b) =~= spec_base64(b));
    while i < bytes.len()
        invariant
            i <= b.len(),
            b == bytes@,
            i < b.len() ==> i % 3 == 0,
            spec_base64(b) == out@ + spec_base64(b.skip(i as int)),
        decreases b.len() - i,
    {
        let rest = bytes.len() - i;
        let b0 = bytes[i] as usize;
        let b1: usize = if rest > 1 { bytes[i + 1] as usize } else { 0 };
        let b2: usize = if rest > 2 { bytes[i + 2] as usize } else { 0 };
        let ghost g = if rest > 3 { b.skip(i as int).take(3) } else { b.skip(i as int) };
        proof {
            let t = b.skip(i as int);
            assert(g[0] == b[i as int]);
            if rest > 1 {
                assert(g[1] == b[i + 1]);
            }
            if rest > 2 {
                assert(g[2] == b[i + 2]);
            }
            if rest > 3 {
                assert(spec_base64(t) == b64_group(g) + spec_base64(t.skip(3)));
                assert(t.skip(3) =~= b.skip(i + 3));
            } else {
                assert(spec_base64(t) == b64_group(g));
            }
        }
        out.push(b64_at(b0 / 4));
        out.push(b64_at((b0 % 4) * 16 + b1 / 16));
        if rest > 1 {
            out.push(b64_at((b1 % 16) * 4 + b2 / 64));
        } else {
            out.push(61);
        }
        if rest > 2 {
            out.push(b64_at(b2 % 64));
        } else {
            out.push(61);
        }
        if rest > 3 {
            i = i + 3;
        } else {
            i = bytes.len();
        }
        proof {
            assert(b.skip(b.len() as int) =~= Seq::<u8>::empty());
        }
    }
    proof {
        assert(b.skip(b.len() as int) =~= Seq::<u8>::empty());
        assert(out@ =~= spec_base64(b));
        lemma_base64_ascii(b);
        let cs = ascii_chars(out@);
        assert(is_ascii_chars(cs));
        vstd::utf8::is_ascii_chars_encode_utf8(cs);
        assert(encode_utf8(cs) =~= out@);
        vstd::utf8::encode_utf8_valid_utf8(cs);
        vstd::utf8::encode_utf8_decode_utf8(cs);
    }
    match utf8_to_string(out.as_slice()) {
        Some(s) => s,
        None => {
            proof {
                assert(valid_utf8(out@));
            }
            String::new()
        },
    }
}

} // verus!
