//! Compact binary layout for document metadata.
//!
//! ```text
//! doc count: varint
//! per document:
//!   type:     1 byte (0 = page, 1 = post)
//!   title:    varint length + UTF-8
//!   excerpt:  varint length + UTF-8
//!   href:     varint length + UTF-8
//!   category: varint length + UTF-8 (empty when there is none)
//! ```
//!
//! Ids are not stored: a document's id is its position.

use vstd::prelude::*;
use vstd::slice::slice_subrange;
use vstd::utf8::{decode_utf8, encode_utf8, valid_utf8};

use crate::binary::docs::{spec_doc_type, spec_non_empty, spec_opt_text, spec_type_byte};
use crate::binary::encoding::{
    append_bytes, concat_map, decode_varint, lemma_concat_map_front, lemma_concat_map_push,
    lemma_subrange_skip, lemma_varint_len_bound, lemma_varint_roundtrip, spec_decode_varint, spec_varint,
};
use crate::display::str_eq;

verus! {

/// Document metadata for search results
#[derive(Debug, Clone)]
pub struct Doc {
    pub id: u32,
    pub title: String,
    pub excerpt: String,
    pub href: String,
    pub doc_type: String,
    /// Category for client-side filtering (optional)
    pub category: Option<String>,
}

/// The fields of a document as character sequences.
pub struct CompactDoc {
    pub id: u32,
    pub title: Seq<char>,
    pub excerpt: Seq<char>,
    pub href: Seq<char>,
    pub doc_type: Seq<char>,
    pub category: Option<Seq<char>>,
}

impl View for Doc {
    type V = CompactDoc;

    open spec fn view(&self) -> CompactDoc {
        CompactDoc {
            id: self.id,
            title: self.title@,
            excerpt: self.excerpt@,
            href: self.href@,
            doc_type: self.doc_type@,
            category: match self.category {
                Some(c) => Some(c@),
                None => None,
            },
        }
    }
}

/// The fields of each document.
pub open spec fn compact_docs_view(docs: Seq<Doc>) -> Seq<CompactDoc> {
    docs.map_values(|d: Doc| d@)
}

/// Type flag as single byte
#[derive(Debug, Clone, Copy, PartialEq, Eq, Structural)]
pub enum DocType {
    Page,
    Post,
}

impl DocType {
    /// "page" is a page; anything else is a post.
    pub fn from_str(s: &str) -> (t: DocType)
        ensures
            t == (if s@ == "page"@ { DocType::Page } else { DocType::Post }),
    {
        if str_eq(s, "page") {
            DocType::Page
        } else {
            DocType::Post
        }
    }
}

// ============================================================================
// ENCODING
// ============================================================================

/// A string as its UTF-8 length (taken as a u32) and its UTF-8 bytes.
pub open spec fn spec_compact_string(s: Seq<char>) -> Seq<u8> {
    spec_varint(((encode_utf8(s).len() as u32) as u64)) + encode_utf8(s)
}

/// The bytes of one document.
pub open spec fn spec_compact_doc(d: CompactDoc) -> Seq<u8> {
    seq![spec_type_byte(d.doc_type)] + spec_compact_string(d.title) + spec_compact_string(d.excerpt)
        + spec_compact_string(d.href) + spec_compact_string(spec_opt_text(d.category))
}

/// The whole layout: the count (taken as a u32), then each document.
pub open spec fn spec_encode_compact(docs: Seq<CompactDoc>) -> Seq<u8> {
    spec_varint(((docs.len() as u32) as u64)) + concat_map(docs, |d: CompactDoc| spec_compact_doc(d))
}

/// Write a varint (LEB128 encoding)
fn write_varint(buf: &mut Vec<u8>, value: u32)
    ensures
        final(buf)@ == old(buf)@ + spec_varint(value as u64),
{
    let mut v: u32 = value;
    let ghost start = buf@;
    loop
        invariant_except_break
            start + spec_varint(value as u64) == buf@ + spec_varint(v as u64),
        ensures
            buf@ == start + spec_varint(value as u64),
        decreases v,
    {
        let byte: u8 = (v % 128) as u8;
        let next = v / 128;
        if next == 0 {
            buf.push(byte);
            assert(buf@ == start + spec_varint(value as u64));
            break;
        } else {
            buf.push(byte + 128);
            assert(spec_varint(v as u64) == seq![((v % 128) + 128) as u8] + spec_varint(next as u64));
            assert(buf@ + spec_varint(next as u64) == start + spec_varint(value as u64)) by {
                assert(buf@ + spec_varint(next as u64) =~= (buf@.drop_last()) + (seq![((v % 128) + 128) as u8]
                    + spec_varint(next as u64)));
            }
            v = next;
        }
    }
}

/// Write a length-prefixed string using varint encoding
fn write_varint_string(buf: &mut Vec<u8>, s: &str)
    ensures
        final(buf)@ == old(buf)@ + spec_compact_string(s@),
{
    let bytes = s.as_bytes();
    write_varint(buf, bytes.len() as u32);
    append_bytes(buf, bytes);
    assert(buf@ =~= old(buf)@ + spec_compact_string(s@));
}

/// Encode docs to the compact layout (ids are left out: they are positions).
pub fn encode_docs_binary(docs: &[Doc]) -> (buf: Vec<u8>)
    ensures
        buf@ == spec_encode_compact(compact_docs_view(docs@)),
{
    let ghost view = compact_docs_view(docs@);
    let mut buf: Vec<u8> = Vec::new();
    write_varint(&mut buf, docs.len() as u32);
    let ghost head = buf@;
    let mut i: usize = 0;
    while i < docs.len()
        invariant
            i <= docs@.len(),
            view == compact_docs_view(docs@),
            head == spec_varint(((docs@.len() as u32) as u64)),
            buf@ == head + concat_map(view.take(i as int), |d: CompactDoc| spec_compact_doc(d)),
        decreases docs@.len() - i,
    {
        let doc = &docs[i];
        let ghost before = buf@;
        let flag: u8 = match DocType::from_str(doc.doc_type.as_str()) {
            DocType::Page => 0,
            DocType::Post => 1,
        };
        buf.push(flag);
        write_varint_string(&mut buf, doc.title.as_str());
        write_varint_string(&mut buf, doc.excerpt.as_str());
        write_varint_string(&mut buf, doc.href.as_str());
        let category: &str = match &doc.category {
            Some(c) => c.as_str(),
            None => "",
        };
        proof {
            reveal_strlit("");
            assert(category@ == spec_opt_text(view[i as int].category));
        }
        write_varint_string(&mut buf, category);
        proof {
            assert(view[i as int] == docs@[i as int]@);
            assert(buf@ =~= before + spec_compact_doc(view[i as int]));
            assert(view.take(i + 1) =~= view.take(i as int).push(view[i as int]));
            lemma_concat_map_push(view.take(i as int), view[i as int], |d: CompactDoc| spec_compact_doc(d));
        }
        i = i + 1;
    }
    assert(view.take(docs@.len() as int) =~= view);
    buf
}

// ============================================================================
// DECODING
// ============================================================================

/// What `String::from_utf8_lossy` makes of bytes that are not valid UTF-8
/// (each malformed sequence becomes U+FFFD).
pub uninterp spec fn lossy_utf8(bytes: Seq<u8>) -> Seq<char>;

/// The characters read from a run of bytes: decoded when valid UTF-8,
/// replaced where malformed otherwise.
pub open spec fn lossy_text(bytes: Seq<u8>) -> Seq<char> {
    if valid_utf8(bytes) {
        decode_utf8(bytes)
    } else {
        lossy_utf8(bytes)
    }
}

/// Calls `String::from_utf8_lossy`. Trusted: valid UTF-8 decodes to the
/// characters it encodes; other input gives the named lossy result.
#[verifier::external_body]
fn utf8_lossy_string(bytes: &[u8]) -> (s: String)
    ensures
        valid_utf8(bytes@) ==> s@ == decode_utf8(bytes@),
        !valid_utf8(bytes@) ==> s@ == lossy_utf8(bytes@),
{
    String::from_utf8_lossy(bytes).into_owned()
}

/// A varint of at most five bytes at `pos`: its value taken as a u32, and
/// the position past it (none where the reader would fail).
pub open spec fn spec_compact_varint(bytes: Seq<u8>, pos: nat) -> Option<(u32, nat)> {
    if pos > bytes.len() {
        None
    } else {
        match spec_decode_varint(bytes.subrange(pos as int, bytes.len() as int)) {
            Ok((v, n)) => if n <= 5 { Some((v as u32, pos + n)) } else { None },
            Err(_) => None,
        }
    }
}

/// A length-prefixed string at `pos`.
pub open spec fn spec_compact_read_string(bytes: Seq<u8>, pos: nat) -> Option<(Seq<char>, nat)> {
    match spec_compact_varint(bytes, pos) {
        Some((l, p)) => if p + l <= bytes.len() {
            Some((lossy_text(bytes.subrange(p as int, p + l)), (p + l) as nat))
        } else {
            None
        },
        None => None,
    }
}

/// One document at `pos`, given its id.
pub open spec fn spec_compact_read_doc(bytes: Seq<u8>, pos: nat, id: u32) -> Option<(CompactDoc, nat)> {
    if pos >= bytes.len() {
        None
    } else {
        match spec_compact_read_string(bytes, pos + 1) {
            None => None,
            Some((title, p1)) => match spec_compact_read_string(bytes, p1) {
                None => None,
                Some((excerpt, p2)) => match spec_compact_read_string(bytes, p2) {
                    None => None,
                    Some((href, p3)) => match spec_compact_read_string(bytes, p3) {
                        None => None,
                        Some((category, p4)) => Some((
                            CompactDoc {
                                id,
                                title,
                                excerpt,
                                href,
                                doc_type: spec_doc_type(bytes[pos as int]),
                                category: spec_non_empty(category),
                            },
                            p4,
                        )),
                    },
                },
            },
        }
    }
}

/// `k` documents from `pos`, the first with id `id`.
pub open spec fn spec_compact_read_docs(bytes: Seq<u8>, pos: nat, id: nat, k: nat) -> Option<(Seq<CompactDoc>, nat)>
    decreases k,
{
    if k == 0 {
        Some((Seq::empty(), pos))
    } else {
        match spec_compact_read_doc(bytes, pos, id as u32) {
            None => None,
            Some((d, p)) => match spec_compact_read_docs(bytes, p, (id + 1) as nat, (k - 1) as nat) {
                None => None,
                Some((rest, q)) => Some((seq![d] + rest, q)),
            },
        }
    }
}

/// What decoding yields: the documents, or none where the reader would
/// fail (a varint longer than five bytes, or bytes running out).
pub open spec fn spec_decode_compact(bytes: Seq<u8>) -> Option<Seq<CompactDoc>> {
    match spec_compact_varint(bytes, 0) {
        None => None,
        Some((count, p)) => match spec_compact_read_docs(bytes, p, 0, count as nat) {
            None => None,
            Some((docs, _)) => Some(docs),
        },
    }
}

/// Read a varint from a slice, returning (value, bytes_read)
fn read_varint(data: &[u8]) -> (r: (u32, usize))
    requires
        spec_compact_varint(data@, 0) is Some,
    ensures
        spec_compact_varint(data@, 0) == Some((r.0, r.1 as nat)),
        r.1 <= data@.len(),
{
    assert(data@.subrange(0, data@.len() as int) =~= data@);
    match decode_varint(data) {
        Ok((v, n)) => (v as u32, n),
        Err(_) => {
            proof {
                assert(false);
            }
            (0, 0)
        },
    }
}

/// Read a length-prefixed string from a slice
fn read_varint_string(data: &[u8]) -> (r: (String, usize))
    requires
        spec_compact_read_string(data@, 0) is Some,
    ensures
        spec_compact_read_string(data@, 0) == Some((r.0@, r.1 as nat)),
        r.1 <= data@.len(),
{
    let (len, varint_size) = read_varint(data);
    assert(varint_size + len <= data@.len());
    assert(data@.len() == data.len());
    let end = varint_size + len as usize;
    let bytes = slice_subrange(data, varint_size, end);
    let s = utf8_lossy_string(bytes);
    (s, end)
}

proof fn lemma_suffix_subrange(data: Seq<u8>, off: nat, p: nat)
    requires
        off <= data.len(),
    ensures
        spec_compact_read_string(data.subrange(off as int, data.len() as int), p) == (match spec_compact_read_string(data, off + p) {
            Some((s, q)) => Some((s, (q - off) as nat)),
            None => None,
        }),
{
    let sub = data.subrange(off as int, data.len() as int);
    if p <= sub.len() {
        assert(sub.subrange(p as int, sub.len() as int) =~= data.subrange((off + p) as int, data.len() as int));
        match spec_compact_varint(data, off + p) {
            Some((l, q)) => {
                if q + l <= data.len() {
                    assert(sub.subrange((q - off) as int, (q - off) + l) =~= data.subrange(q as int, q + l));
                }
            },
            None => {},
        }
    }
}

/// Read the document at `offset`, which gets id `id`.
#[verifier::rlimit(40)]
fn read_doc_at(data: &[u8], offset: usize, id: u32) -> (r: (Doc, usize))
    requires
        spec_compact_read_doc(data@, offset as nat, id) is Some,
    ensures
        spec_compact_read_doc(data@, offset as nat, id) == Some((r.0@, r.1 as nat)),
        r.1 <= data@.len(),
{
    let ghost bytes = data@;
    let ghost pos = offset as nat;
    let ghost (t_s, p1) = spec_compact_read_string(bytes, pos + 1)->Some_0;
    let ghost (e_s, p2) = spec_compact_read_string(bytes, p1)->Some_0;
    let ghost (h_s, p3) = spec_compact_read_string(bytes, p2)->Some_0;
    let ghost (c_s, p4) = spec_compact_read_string(bytes, p3)->Some_0;
    assert(spec_compact_read_string(bytes, pos + 1) == Some((t_s, p1)));
    assert(spec_compact_read_string(bytes, p1) == Some((e_s, p2)));
    assert(spec_compact_read_string(bytes, p2) == Some((h_s, p3)));
    assert(spec_compact_read_string(bytes, p3) == Some((c_s, p4)));
    let doc_type = if data[offset] == 0 {
        String::from_str("page")
    } else {
        String::from_str("post")
    };
    proof {
        reveal_strlit("page");
        reveal_strlit("post");
    }
    let mut offset = offset + 1;

    proof { lemma_suffix_subrange(bytes, offset as nat, 0); }
    let (title, size) = read_varint_string(slice_subrange(data, offset, data.len()));
    offset = offset + size;
    assert(title@ == t_s && offset == p1);

    proof { lemma_suffix_subrange(bytes, offset as nat, 0); }
    let (excerpt, size) = read_varint_string(slice_subrange(data, offset, data.len()));
    offset = offset + size;
    assert(excerpt@ == e_s && offset == p2);

    proof { lemma_suffix_subrange(bytes, offset as nat, 0); }
    let (href, size) = read_varint_string(slice_subrange(data, offset, data.len()));
    offset = offset + size;
    assert(href@ == h_s && offset == p3);

    proof { lemma_suffix_subrange(bytes, offset as nat, 0); }
    let (category_str, size) = read_varint_string(slice_subrange(data, offset, data.len()));
    offset = offset + size;
    assert(category_str@ == c_s && offset == p4);
    let category = if category_str.as_str().is_empty() {
        None
    } else {
        Some(category_str)
    };
    (Doc { id, title, excerpt, href, doc_type, category }, offset)
}

/// Decode docs from the compact layout
pub fn decode_docs_binary(data: &[u8]) -> (docs: Vec<Doc>)
    requires
        spec_decode_compact(data@) is Some,
    ensures
        spec_decode_compact(data@) == Some(compact_docs_view(docs@)),
{
    let ghost bytes = data@;
    let (doc_count, size) = read_varint(data);
    let mut offset: usize = size;
    let ghost total = spec_compact_read_docs(bytes, offset as nat, 0, doc_count as nat);
    let mut docs: Vec<Doc> = Vec::new();
    let mut id: u32 = 0;
    while id < doc_count
        invariant
            bytes == data@,
            id <= doc_count,
            offset <= bytes.len(),
            total is Some,
            total == (match spec_compact_read_docs(bytes, offset as nat, id as nat, (doc_count - id) as nat) {
                Some((rest, q)) => Some((compact_docs_view(docs@) + rest, q)),
                None => None,
            }),
        decreases doc_count - id,
    {
        let ghost k = (doc_count - id) as nat;
        let ghost d_spec = spec_compact_read_doc(bytes, offset as nat, id);
        assert(spec_compact_read_docs(bytes, offset as nat, id as nat, k) == (match d_spec {
            None => None,
            Some((d, p)) => match spec_compact_read_docs(bytes, p, (id + 1) as nat, (k - 1) as nat) {
                None => None,
                Some((rest, q)) => Some((seq![d] + rest, q)),
            },
        }));
        let (doc, next) = read_doc_at(data, offset, id);
        let ghost before = docs@;
        docs.push(doc);
        proof {
            let (dv, p4) = d_spec->Some_0;
            assert(docs@[before.len() as int]@ == dv);
            assert(compact_docs_view(docs@) =~= compact_docs_view(before).push(dv));
            match spec_compact_read_docs(bytes, p4, (id + 1) as nat, (k - 1) as nat) {
                Some((rest, q)) => {
                    assert(compact_docs_view(before) + (seq![dv] + rest) =~= compact_docs_view(docs@) + rest);
                },
                None => {},
            }
        }
        offset = next;
        id = id + 1;
    }
    proof {
        assert(compact_docs_view(docs@) + Seq::<CompactDoc>::empty() =~= compact_docs_view(docs@));
    }
    docs
}

// ============================================================================
// ROUNDTRIP
// ============================================================================

/// Every string of a document is shorter than 2^32 bytes.
pub open spec fn compact_doc_fits(d: CompactDoc) -> bool {
    &&& encode_utf8(d.title).len() < 0x1_0000_0000
    &&& encode_utf8(d.excerpt).len() < 0x1_0000_0000
    &&& encode_utf8(d.href).len() < 0x1_0000_0000
    &&& encode_utf8(spec_opt_text(d.category)).len() < 0x1_0000_0000
}

/// Fewer than 2^32 documents, each of which fits.
pub open spec fn compact_fit(docs: Seq<CompactDoc>) -> bool {
    &&& docs.len() < 0x1_0000_0000
    &&& forall|i: int| 0 <= i < docs.len() ==> #[trigger] compact_doc_fits(docs[i])
}

/// What a document reads back as: its position as id, its type as "page"
/// or "post", and an empty category as none.
pub open spec fn spec_normalize_compact(d: CompactDoc, id: u32) -> CompactDoc {
    CompactDoc {
        id,
        title: d.title,
        excerpt: d.excerpt,
        href: d.href,
        doc_type: spec_doc_type(spec_type_byte(d.doc_type)),
        category: spec_non_empty(spec_opt_text(d.category)),
    }
}

/// Each document normalized, ids counting up from `first`.
pub open spec fn spec_compact_normalized(docs: Seq<CompactDoc>, first: nat) -> Seq<CompactDoc> {
    Seq::new(docs.len(), |i: int| spec_normalize_compact(docs[i], (first + i) as u32))
}

proof fn lemma_pow128_5()
    ensures
        vstd::arithmetic::power::pow(128, 5) == 0x8_0000_0000,
{
    reveal_with_fuel(vstd::arithmetic::power::pow, 6);
}

proof fn lemma_compact_varint_entry(bytes: Seq<u8>, pos: nat, v: u32, rest: Seq<u8>)
    requires
        pos <= bytes.len(),
        bytes.subrange(pos as int, bytes.len() as int) == spec_varint(v as u64) + rest,
    ensures
        spec_compact_varint(bytes, pos) == Some((v, pos + spec_varint(v as u64).len())),
        bytes.subrange(pos as int + spec_varint(v as u64).len(), bytes.len() as int) == rest,
{
    lemma_varint_roundtrip(v as u64, rest);
    lemma_pow128_5();
    lemma_varint_len_bound(v as u64, 5);
    lemma_subrange_skip(bytes, pos as int, spec_varint(v as u64), rest);
}

proof fn lemma_compact_string_entry(bytes: Seq<u8>, pos: nat, s: Seq<char>, rest: Seq<u8>)
    requires
        pos <= bytes.len(),
        encode_utf8(s).len() < 0x1_0000_0000,
        bytes.subrange(pos as int, bytes.len() as int) == spec_compact_string(s) + rest,
    ensures
        spec_compact_read_string(bytes, pos) == Some((s, pos + spec_compact_string(s).len())),
        bytes.subrange(pos as int + spec_compact_string(s).len(), bytes.len() as int) == rest,
{
    let e = encode_utf8(s);
    let l = e.len() as u32;
    let v = spec_varint(l as u64);
    assert(spec_compact_string(s) + rest =~= v + (e + rest));
    lemma_compact_varint_entry(bytes, pos, l, e + rest);
    let p = pos + v.len();
    assert(bytes.subrange(p as int, p + l) =~= e) by {
        assert forall|j: int| 0 <= j < e.len() implies bytes.subrange(p as int, p + l)[j] == e[j] by {
            assert(bytes.subrange(p as int, bytes.len() as int)[j] == (e + rest)[j]);
        }
    }
    vstd::utf8::encode_utf8_valid_utf8(s);
    vstd::utf8::encode_utf8_decode_utf8(s);
    lemma_subrange_skip(bytes, pos as int, spec_compact_string(s), rest);
}

proof fn lemma_compact_doc_entry(bytes: Seq<u8>, pos: nat, d: CompactDoc, id: u32, rest: Seq<u8>)
    requires
        pos <= bytes.len(),
        compact_doc_fits(d),
        bytes.subrange(pos as int, bytes.len() as int) == spec_compact_doc(d) + rest,
    ensures
        spec_compact_read_doc(bytes, pos, id) == Some((spec_normalize_compact(d, id), pos + spec_compact_doc(d).len())),
        bytes.subrange(pos as int + spec_compact_doc(d).len(), bytes.len() as int) == rest,
{
    let t = seq![spec_type_byte(d.doc_type)];
    let e1 = spec_compact_string(d.title);
    let e2 = spec_compact_string(d.excerpt);
    let e3 = spec_compact_string(d.href);
    let e4 = spec_compact_string(spec_opt_text(d.category));
    let r4 = e4 + rest;
    let r3 = e3 + r4;
    let r2 = e2 + r3;
    let r1 = e1 + r2;
    vstd::seq_lib::lemma_concat_associative(t + e1 + e2 + e3, e4, rest);
    vstd::seq_lib::lemma_concat_associative(t + e1 + e2, e3, r4);
    vstd::seq_lib::lemma_concat_associative(t + e1, e2, r3);
    vstd::seq_lib::lemma_concat_associative(t, e1, r2);
    assert(spec_compact_doc(d) + rest == t + r1);
    assert(bytes[pos as int] == spec_type_byte(d.doc_type)) by {
        assert(bytes.subrange(pos as int, bytes.len() as int)[0] == (t + r1)[0]);
    }
    lemma_subrange_skip(bytes, pos as int, t, r1);
    let p1 = pos + 1;
    lemma_compact_string_entry(bytes, p1, d.title, r2);
    let p2 = p1 + e1.len();
    lemma_compact_string_entry(bytes, p2, d.excerpt, r3);
    let p3 = p2 + e2.len();
    lemma_compact_string_entry(bytes, p3, d.href, r4);
    let p4 = p3 + e3.len();
    lemma_compact_string_entry(bytes, p4, spec_opt_text(d.category), rest);
}

#[verifier::spinoff_prover]
#[verifier::rlimit(40)]
proof fn lemma_compact_docs_entries(bytes: Seq<u8>, pos: nat, docs: Seq<CompactDoc>, first: nat, rest: Seq<u8>)
    requires
        pos <= bytes.len(),
        forall|i: int| 0 <= i < docs.len() ==> #[trigger] compact_doc_fits(docs[i]),
        bytes.subrange(pos as int, bytes.len() as int) == concat_map(docs, |d: CompactDoc| spec_compact_doc(d)) + rest,
    ensures
        spec_compact_read_docs(bytes, pos, first, docs.len()) == Some((
            spec_compact_normalized(docs, first),
            pos + concat_map(docs, |d: CompactDoc| spec_compact_doc(d)).len(),
        )),
    decreases docs.len(),
{
    let f = |d: CompactDoc| spec_compact_doc(d);
    if docs.len() == 0 {
        assert(concat_map(docs, f) =~= Seq::<u8>::empty());
        assert(spec_compact_normalized(docs, first) =~= Seq::<CompactDoc>::empty());
    } else {
        lemma_concat_map_front(docs, f);
        let head = spec_compact_doc(docs[0]);
        let tail = concat_map(docs.drop_first(), f);
        assert(concat_map(docs, f) + rest =~= head + (tail + rest));
        assert(compact_doc_fits(docs[0]));
        lemma_compact_doc_entry(bytes, pos, docs[0], first as u32, tail + rest);
        assert forall|i: int| 0 <= i < docs.drop_first().len() implies #[trigger] compact_doc_fits(docs.drop_first()[i]) by {
            assert(docs.drop_first()[i] == docs[i + 1]);
            assert(compact_doc_fits(docs[i + 1]));
        }
        lemma_compact_docs_entries(bytes, pos + head.len(), docs.drop_first(), first + 1, rest);
        assert(seq![spec_normalize_compact(docs[0], first as u32)] + spec_compact_normalized(docs.drop_first(), first + 1)
            =~= spec_compact_normalized(docs, first));
    }
}

/// Decoding what was encoded gives back every document, with its position
/// as id, its type read as "page" or "post", and an empty category read as
/// none, as long as there are fewer than 2^32 documents and every string is
/// shorter than 2^32 bytes.
pub proof fn lemma_compact_docs_roundtrip(docs: Seq<CompactDoc>)
    requires
        compact_fit(docs),
    ensures
        spec_decode_compact(spec_encode_compact(docs)) == Some(spec_compact_normalized(docs, 0)),
{
    let b = spec_encode_compact(docs);
    let n = docs.len() as u32;
    let body = concat_map(docs, |d: CompactDoc| spec_compact_doc(d));
    assert(b.subrange(0, b.len() as int) =~= spec_varint(n as u64) + body);
    lemma_compact_varint_entry(b, 0, n, body);
    assert(body + Seq::<u8>::empty() =~= body);
    assert(b.subrange(spec_varint(n as u64).len() as int, b.len() as int) == body + Seq::<u8>::empty());
    lemma_compact_docs_entries(b, spec_varint(n as u64).len(), docs, 0, Seq::<u8>::empty());
}

} // verus!
