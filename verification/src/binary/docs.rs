//! Document metadata section: length-prefixed strings with a one-byte type.
//!
//! Format (v2):
//! - magic: u8 (0xFE = v2+ format indicator)
//! - version: u8 (2)
//! - count: varint (number of docs)
//! - for each doc: type byte (0 = page, 1 = post), title, excerpt, href,
//!   section_id flag (+ string when the flag is 1), category, author
//!   (each an empty string for none), tag count, tags.
//!
//! The v1 layout has no magic, no version and no author or tags.

use vstd::prelude::*;
use vstd::slice::slice_subrange;
use vstd::utf8::{decode_utf8, encode_utf8, valid_utf8};

use crate::binary::encoding::{
    concat_map, decode_varint_at, encode_varint, lemma_concat_map_front,
    lemma_concat_map_push, lemma_subrange_skip, lemma_varint_roundtrip, spec_decode_varint, spec_string_entry,
    spec_varint, utf8_to_string, write_string,
};
use crate::error::FormatError;

verus! {

/// Magic byte marking the v2+ docs layout.
pub const DOCS_V2_MAGIC: u8 = 0xFE;

/// Docs section version (v2 = includes author and tags).
pub const DOCS_VERSION: u8 = 2;

/// The fields of one document, as character sequences.
pub struct DocFields {
    pub title: Seq<char>,
    pub excerpt: Seq<char>,
    pub href: Seq<char>,
    pub doc_type: Seq<char>,
    pub section_id: Option<Seq<char>>,
    pub category: Option<Seq<char>>,
    pub author: Option<Seq<char>>,
    pub tags: Seq<Seq<char>>,
}

/// The characters of an optional string.
pub open spec fn opt_view(o: Option<String>) -> Option<Seq<char>> {
    match o {
        Some(s) => Some(s@),
        None => None,
    }
}

/// The characters of each string.
pub open spec fn strings_view(v: Seq<String>) -> Seq<Seq<char>> {
    v.map_values(|s: String| s@)
}

/// Document metadata for encoding (matches DocMeta fields)
#[derive(Debug, Clone)]
pub struct DocMetaInput {
    pub title: String,
    pub excerpt: String,
    pub href: String,
    pub doc_type: String,
    /// Section ID for deep linking (None for titles, Some for headings/content)
    pub section_id: Option<String>,
    /// Category for client-side filtering
    pub category: Option<String>,
    /// Author name (for multi-author blogs)
    pub author: Option<String>,
    /// Tags/labels for categorization
    pub tags: Vec<String>,
}

impl View for DocMetaInput {
    type V = DocFields;

    open spec fn view(&self) -> DocFields {
        DocFields {
            title: self.title@,
            excerpt: self.excerpt@,
            href: self.href@,
            doc_type: self.doc_type@,
            section_id: opt_view(self.section_id),
            category: opt_view(self.category),
            author: opt_view(self.author),
            tags: strings_view(self.tags@),
        }
    }
}

/// Document metadata (loaded from the docs section)
#[derive(Debug, Clone)]
pub struct DocMeta {
    pub title: String,
    pub excerpt: String,
    pub href: String,
    /// "page" or "post"
    pub doc_type: String,
    /// Section ID for deep linking; None for title matches
    pub section_id: Option<String>,
    /// Category for client-side filtering
    pub category: Option<String>,
    /// Author name (for multi-author blogs)
    pub author: Option<String>,
    /// Tags/labels for categorization
    pub tags: Vec<String>,
}

impl View for DocMeta {
    type V = DocFields;

    open spec fn view(&self) -> DocFields {
        DocFields {
            title: self.title@,
            excerpt: self.excerpt@,
            href: self.href@,
            doc_type: self.doc_type@,
            section_id: opt_view(self.section_id),
            category: opt_view(self.category),
            author: opt_view(self.author),
            tags: strings_view(self.tags@),
        }
    }
}

// ============================================================================
// ENCODING
// ============================================================================

/// The type byte: 0 for "page", 1 for anything else.
pub open spec fn spec_type_byte(t: Seq<char>) -> u8 {
    if t == "page"@ { 0 } else { 1 }
}

/// The characters written for an optional string (none is written as empty).
pub open spec fn spec_opt_text(o: Option<Seq<char>>) -> Seq<char> {
    match o {
        Some(s) => s,
        None => Seq::empty(),
    }
}

/// A list of length-prefixed strings, one after another.
pub open spec fn spec_strings_bytes(ss: Seq<Seq<char>>) -> Seq<u8> {
    concat_map(ss, |s: Seq<char>| spec_string_entry(s))
}

/// The section-id part of a document entry: a flag, then the id if any.
pub open spec fn spec_section_id_bytes(o: Option<Seq<char>>) -> Seq<u8> {
    match o {
        Some(id) => seq![1u8] + spec_string_entry(id),
        None => seq![0u8],
    }
}

/// The bytes of one document entry.
pub open spec fn spec_doc_bytes(d: DocFields) -> Seq<u8> {
    seq![spec_type_byte(d.doc_type)] + spec_string_entry(d.title) + spec_string_entry(d.excerpt)
        + spec_string_entry(d.href) + spec_section_id_bytes(d.section_id)
        + spec_string_entry(spec_opt_text(d.category)) + spec_string_entry(spec_opt_text(d.author))
        + spec_varint(d.tags.len() as u64) + spec_strings_bytes(d.tags)
}

/// The whole docs section in the v2 layout.
pub open spec fn spec_encode_docs(docs: Seq<DocFields>) -> Seq<u8> {
    seq![0xFEu8, 2u8] + spec_varint(docs.len() as u64) + concat_map(docs, |d: DocFields| spec_doc_bytes(d))
}

fn write_opt_string(buf: &mut Vec<u8>, o: &Option<String>)
    ensures
        final(buf)@ == old(buf)@ + spec_string_entry(spec_opt_text(opt_view(*o))),
{
    match o {
        Some(s) => write_string(buf, s.as_str()),
        None => {
            encode_varint(0, buf);
            assert(encode_utf8(Seq::<char>::empty()) =~= Seq::<u8>::empty());
            assert(final(buf)@ =~= old(buf)@ + spec_string_entry(Seq::<char>::empty()));
        },
    }
}

fn write_strings(buf: &mut Vec<u8>, ss: &Vec<String>)
    ensures
        final(buf)@ == old(buf)@ + spec_strings_bytes(strings_view(ss@)),
{
    let ghost v = strings_view(ss@);
    let ghost f = |s: Seq<char>| spec_string_entry(s);
    let ghost start = buf@;
    let mut i: usize = 0;
    while i < ss.len()
        invariant
            i <= ss@.len(),
            v == strings_view(ss@),
            f == (|s: Seq<char>| spec_string_entry(s)),
            buf@ == start + concat_map(v.take(i as int), f),
        decreases ss@.len() - i,
    {
        write_string(buf, ss[i].as_str());
        proof {
            assert(v.take(i as int + 1) =~= v.take(i as int).push(v[i as int]));
            lemma_concat_map_push(v.take(i as int), v[i as int], f);
        }
        i = i + 1;
    }
    assert(v.take(v.len() as int) =~= v);
}

fn encode_doc(buf: &mut Vec<u8>, doc: &DocMetaInput, page: &String)
    requires
        page@ == "page"@,
    ensures
        final(buf)@ == old(buf)@ + spec_doc_bytes(doc@),
{
    let ghost d = doc@;
    let ghost b0 = buf@;
    let type_byte: u8 = if doc.doc_type == *page { 0 } else { 1 };
    buf.push(type_byte);
    let ghost p1 = seq![spec_type_byte(d.doc_type)];
    assert(buf@ =~= b0 + p1);
    write_string(buf, doc.title.as_str());
    let ghost p2 = p1 + spec_string_entry(d.title);
    proof { vstd::seq_lib::lemma_concat_associative(b0, p1, spec_string_entry(d.title)); }
    write_string(buf, doc.excerpt.as_str());
    let ghost p3 = p2 + spec_string_entry(d.excerpt);
    proof { vstd::seq_lib::lemma_concat_associative(b0, p2, spec_string_entry(d.excerpt)); }
    write_string(buf, doc.href.as_str());
    let ghost p4 = p3 + spec_string_entry(d.href);
    proof { vstd::seq_lib::lemma_concat_associative(b0, p3, spec_string_entry(d.href)); }
    let ghost before = buf@;
    match &doc.section_id {
        Some(id) => {
            buf.push(1u8);
            write_string(buf, id.as_str());
            assert(buf@ =~= before + (seq![1u8] + spec_string_entry(id@)));
        },
        None => {
            buf.push(0u8);
            assert(buf@ =~= before + seq![0u8]);
        },
    }
    assert(buf@ == before + spec_section_id_bytes(d.section_id));
    let ghost p5 = p4 + spec_section_id_bytes(d.section_id);
    proof { vstd::seq_lib::lemma_concat_associative(b0, p4, spec_section_id_bytes(d.section_id)); }
    write_opt_string(buf, &doc.category);
    let ghost p6 = p5 + spec_string_entry(spec_opt_text(d.category));
    proof { vstd::seq_lib::lemma_concat_associative(b0, p5, spec_string_entry(spec_opt_text(d.category))); }
    write_opt_string(buf, &doc.author);
    let ghost p7 = p6 + spec_string_entry(spec_opt_text(d.author));
    proof { vstd::seq_lib::lemma_concat_associative(b0, p6, spec_string_entry(spec_opt_text(d.author))); }
    encode_varint(doc.tags.len() as u64, buf);
    let ghost p8 = p7 + spec_varint(d.tags.len() as u64);
    proof { vstd::seq_lib::lemma_concat_associative(b0, p7, spec_varint(d.tags.len() as u64)); }
    write_strings(buf, &doc.tags);
    let ghost p9 = p8 + spec_strings_bytes(d.tags);
    proof { vstd::seq_lib::lemma_concat_associative(b0, p8, spec_strings_bytes(d.tags)); }
    assert(p9 == spec_doc_bytes(d));
}

/// Encode docs to the binary docs section (v2 layout).
pub fn encode_docs_binary(docs: &[DocMetaInput]) -> (r: Vec<u8>)
    ensures
        r@ == spec_encode_docs(docs@.map_values(|d: DocMetaInput| d@)),
{
    let ghost ds = docs@.map_values(|d: DocMetaInput| d@);
    let ghost f = |d: DocFields| spec_doc_bytes(d);
    let page = String::from_str("page");
    let mut buf: Vec<u8> = Vec::new();
    buf.push(DOCS_V2_MAGIC);
    buf.push(DOCS_VERSION);
    encode_varint(docs.len() as u64, &mut buf);
    let ghost start = buf@;
    let mut i: usize = 0;
    while i < docs.len()
        invariant
            i <= docs@.len(),
            page@ == "page"@,
            ds == docs@.map_values(|d: DocMetaInput| d@),
            f == (|d: DocFields| spec_doc_bytes(d)),
            buf@ == start + concat_map(ds.take(i as int), f),
        decreases docs@.len() - i,
    {
        encode_doc(&mut buf, &docs[i], &page);
        proof {
            assert(ds.take(i as int + 1) =~= ds.take(i as int).push(ds[i as int]));
            lemma_concat_map_push(ds.take(i as int), ds[i as int], f);
        }
        i = i + 1;
    }
    assert(ds.take(ds.len() as int) =~= ds);
    assert(buf@ =~= spec_encode_docs(ds));
    buf
}

// ============================================================================
// DECODING
// ============================================================================

/// Reading a length-prefixed UTF-8 string at `pos`: its characters and the
/// position just past it.
pub open spec fn spec_read_text(bytes: Seq<u8>, pos: nat) -> Result<(Seq<char>, nat), FormatError> {
    match spec_decode_varint(bytes.subrange(pos as int, bytes.len() as int)) {
        Err(e) => Err(e),
        Ok((l, c)) => {
            let p = pos + c;
            if p + l > bytes.len() {
                Err(FormatError::TruncatedDocs)
            } else if !valid_utf8(bytes.subrange(p as int, p as int + l)) {
                Err(FormatError::InvalidUtf8)
            } else {
                Ok((decode_utf8(bytes.subrange(p as int, p as int + l)), (p + l) as nat))
            }
        },
    }
}

/// An optional string: the empty string stands for none.
pub open spec fn spec_read_opt_text(bytes: Seq<u8>, pos: nat) -> Result<(Option<Seq<char>>, nat), FormatError> {
    match spec_read_text(bytes, pos) {
        Err(e) => Err(e),
        Ok((s, q)) => Ok((if s.len() == 0 { None } else { Some(s) }, q)),
    }
}

/// Reading `k` strings one after another.
pub open spec fn spec_read_texts(bytes: Seq<u8>, pos: nat, k: nat) -> Result<(Seq<Seq<char>>, nat), FormatError>
    decreases k,
{
    if k == 0 {
        Ok((Seq::empty(), pos))
    } else {
        match spec_read_text(bytes, pos) {
            Err(e) => Err(e),
            Ok((s, p)) => match spec_read_texts(bytes, p, (k - 1) as nat) {
                Err(e) => Err(e),
                Ok((rest, q)) => Ok((seq![s] + rest, q)),
            },
        }
    }
}

/// The section-id flag at `pos` and, when it is 1, the id after it.
pub open spec fn spec_read_section_id(bytes: Seq<u8>, pos: nat) -> Result<(Option<Seq<char>>, nat), FormatError> {
    if pos >= bytes.len() {
        Err(FormatError::MissingSectionIdFlag)
    } else if bytes[pos as int] == 1 {
        match spec_read_text(bytes, pos + 1) {
            Err(e) => Err(e),
            Ok((s, q)) => Ok((Some(s), q)),
        }
    } else {
        Ok((None, pos + 1))
    }
}

/// Author and tags (v2 only; none and no tags in v1).
pub open spec fn spec_read_extras(bytes: Seq<u8>, pos: nat, v2: bool) -> Result<(Option<Seq<char>>, Seq<Seq<char>>, nat), FormatError> {
    if !v2 {
        Ok((None, Seq::empty(), pos))
    } else {
        match spec_read_opt_text(bytes, pos) {
            Err(e) => Err(e),
            Ok((author, p)) => match spec_decode_varint(bytes.subrange(p as int, bytes.len() as int)) {
                Err(e) => Err(e),
                Ok((n, c)) => match spec_read_texts(bytes, p + c, n as nat) {
                    Err(e) => Err(e),
                    Ok((tags, q)) => Ok((author, tags, q)),
                },
            },
        }
    }
}

/// The fields read after the type byte and title.
pub open spec fn spec_read_doc_rest(bytes: Seq<u8>, pos: nat, v2: bool, doc_type: Seq<char>, title: Seq<char>) -> Result<(DocFields, nat), FormatError> {
    match spec_read_text(bytes, pos) {
        Err(e) => Err(e),
        Ok((excerpt, p2)) => match spec_read_text(bytes, p2) {
            Err(e) => Err(e),
            Ok((href, p3)) => match spec_read_section_id(bytes, p3) {
                Err(e) => Err(e),
                Ok((section_id, p4)) => match spec_read_opt_text(bytes, p4) {
                    Err(e) => Err(e),
                    Ok((category, p5)) => match spec_read_extras(bytes, p5, v2) {
                        Err(e) => Err(e),
                        Ok((author, tags, p6)) => Ok((DocFields {
                            title, excerpt, href, doc_type, section_id, category, author, tags,
                        }, p6)),
                    },
                },
            },
        },
    }
}

/// The fields of each decoded document.
pub open spec fn docs_view(v: Seq<DocMeta>) -> Seq<DocFields> {
    v.map_values(|d: DocMeta| d@)
}

/// The type a type byte stands for.
pub open spec fn spec_doc_type(b: u8) -> Seq<char> {
    if b == 0 { "page"@ } else { "post"@ }
}

/// Reading one document entry at `pos`.
#[verifier::opaque]
pub open spec fn spec_read_doc(bytes: Seq<u8>, pos: nat, v2: bool) -> Result<(DocFields, nat), FormatError> {
    if pos >= bytes.len() {
        Err(FormatError::TruncatedDocs)
    } else {
        match spec_read_text(bytes, pos + 1) {
            Err(e) => Err(e),
            Ok((title, p1)) => spec_read_doc_rest(bytes, p1, v2, spec_doc_type(bytes[pos as int]), title),
        }
    }
}

/// Reading `k` document entries.
pub open spec fn spec_read_docs(bytes: Seq<u8>, pos: nat, k: nat, v2: bool) -> Result<(Seq<DocFields>, nat), FormatError>
    decreases k,
{
    if k == 0 {
        Ok((Seq::empty(), pos))
    } else {
        match spec_read_doc(bytes, pos, v2) {
            Err(e) => Err(e),
            Ok((d, p)) => match spec_read_docs(bytes, p, (k - 1) as nat, v2) {
                Err(e) => Err(e),
                Ok((rest, q)) => Ok((seq![d] + rest, q)),
            },
        }
    }
}

/// What decoding a docs section yields (v1 and v2 layouts).
pub open spec fn spec_decode_docs(bytes: Seq<u8>) -> Result<Seq<DocFields>, FormatError> {
    if bytes.len() == 0 {
        Ok(Seq::empty())
    } else {
        let v2 = bytes[0] == 0xFE;
        if v2 && bytes.len() < 2 {
            Err(FormatError::MissingDocsVersion)
        } else if v2 && bytes[1] != 2 {
            Err(FormatError::UnsupportedDocsVersion)
        } else {
            let start: nat = if v2 { 2 } else { 0 };
            match spec_decode_varint(bytes.subrange(start as int, bytes.len() as int)) {
                Err(e) => Err(e),
                Ok((count, c)) => match spec_read_docs(bytes, start + c, count as nat, v2) {
                    Err(e) => Err(e),
                    Ok((ds, _)) => Ok(ds),
                },
            }
        }
    }
}

fn read_text(bytes: &[u8], pos: usize) -> (r: Result<(String, usize), FormatError>)
    requires
        pos <= bytes@.len(),
    ensures
        match spec_read_text(bytes@, pos as nat) {
            Ok((s, q)) => r matches Ok((t, m)) && t@ == s && m == q,
            Err(e) => r == Err::<(String, usize), FormatError>(e),
        },
        r matches Ok((_, m)) ==> m <= bytes@.len(),
{
    let (len, consumed) = match decode_varint_at(bytes, pos) {
        Ok(x) => x,
        Err(e) => return Err(e),
    };
    assert(bytes@.len() == bytes.len());
    let p = pos + consumed;
    if len > (bytes.len() - p) as u64 {
        return Err(FormatError::TruncatedDocs);
    }
    let end = p + len as usize;
    match utf8_to_string(slice_subrange(bytes, p, end)) {
        Some(s) => Ok((s, end)),
        None => Err(FormatError::InvalidUtf8),
    }
}

fn read_opt_text(bytes: &[u8], pos: usize) -> (r: Result<(Option<String>, usize), FormatError>)
    requires
        pos <= bytes@.len(),
    ensures
        match spec_read_opt_text(bytes@, pos as nat) {
            Ok((s, q)) => r matches Ok((t, m)) && opt_view(t) == s && m == q,
            Err(e) => r == Err::<(Option<String>, usize), FormatError>(e),
        },
        r matches Ok((_, m)) ==> m <= bytes@.len(),
{
    let (s, q) = match read_text(bytes, pos) {
        Ok(x) => x,
        Err(e) => return Err(e),
    };
    if s.as_str().is_empty() {
        Ok((None, q))
    } else {
        Ok((Some(s), q))
    }
}

fn read_texts(bytes: &[u8], pos: usize, k: u64) -> (r: Result<(Vec<String>, usize), FormatError>)
    requires
        pos <= bytes@.len(),
    ensures
        match spec_read_texts(bytes@, pos as nat, k as nat) {
            Ok((ss, q)) => r matches Ok((v, m)) && strings_view(v@) == ss && m == q,
            Err(e) => r == Err::<(Vec<String>, usize), FormatError>(e),
        },
        r matches Ok((_, m)) ==> m <= bytes@.len(),
{
    let ghost total = spec_read_texts(bytes@, pos as nat, k as nat);
    let mut out: Vec<String> = Vec::new();
    let mut p = pos;
    let mut i: u64 = 0;
    while i < k
        invariant
            i <= k,
            p <= bytes@.len(),
            total == spec_read_texts(bytes@, pos as nat, k as nat),
            match spec_read_texts(bytes@, p as nat, (k - i) as nat) {
                Ok((rest, q)) => total == Ok::<(Seq<Seq<char>>, nat), FormatError>((strings_view(out@) + rest, q)),
                Err(e) => total == Err::<(Seq<Seq<char>>, nat), FormatError>(e),
            },
        decreases k - i,
    {
        let (s, q) = match read_text(bytes, p) {
            Ok(x) => x,
            Err(e) => return Err(e),
        };
        let ghost before = strings_view(out@);
        out.push(s);
        proof {
            assert(strings_view(out@) =~= before.push(s@));
            match spec_read_texts(bytes@, q as nat, (k - i - 1) as nat) {
                Ok((rest, qq)) => {
                    assert(before + (seq![s@] + rest) =~= before.push(s@) + rest);
                },
                Err(e) => {},
            }
        }
        p = q;
        i = i + 1;
    }
    assert(strings_view(out@) + Seq::<Seq<char>>::empty() =~= strings_view(out@));
    Ok((out, p))
}

fn read_section_id(bytes: &[u8], pos: usize) -> (r: Result<(Option<String>, usize), FormatError>)
    requires
        pos <= bytes@.len(),
    ensures
        match spec_read_section_id(bytes@, pos as nat) {
            Ok((s, q)) => r matches Ok((t, m)) && opt_view(t) == s && m == q,
            Err(e) => r == Err::<(Option<String>, usize), FormatError>(e),
        },
        r matches Ok((_, m)) ==> m <= bytes@.len(),
{
    if pos >= bytes.len() {
        return Err(FormatError::MissingSectionIdFlag);
    }
    if bytes[pos] == 1 {
        match read_text(bytes, pos + 1) {
            Ok((s, q)) => Ok((Some(s), q)),
            Err(e) => Err(e),
        }
    } else {
        Ok((None, pos + 1))
    }
}

fn read_extras(bytes: &[u8], pos: usize, v2: bool) -> (r: Result<(Option<String>, Vec<String>, usize), FormatError>)
    requires
        pos <= bytes@.len(),
    ensures
        match spec_read_extras(bytes@, pos as nat, v2) {
            Ok((a, ts, q)) => r matches Ok((aa, tt, m)) && opt_view(aa) == a && strings_view(tt@) == ts && m == q,
            Err(e) => r == Err::<(Option<String>, Vec<String>, usize), FormatError>(e),
        },
        r matches Ok((_, _, m)) ==> m <= bytes@.len(),
{
    if !v2 {
        let tags: Vec<String> = Vec::new();
        assert(strings_view(tags@) =~= Seq::<Seq<char>>::empty());
        return Ok((None, tags, pos));
    }
    let (author, p) = match read_opt_text(bytes, pos) {
        Ok(x) => x,
        Err(e) => return Err(e),
    };
    let (n, c) = match decode_varint_at(bytes, p) {
        Ok(x) => x,
        Err(e) => return Err(e),
    };
    assert(bytes@.len() == bytes.len());
    match read_texts(bytes, p + c, n) {
        Ok((tags, q)) => Ok((author, tags, q)),
        Err(e) => Err(e),
    }
}

fn read_doc(bytes: &[u8], pos: usize, v2: bool) -> (r: Result<(DocMeta, usize), FormatError>)
    requires
        pos <= bytes@.len(),
    ensures
        match spec_read_doc(bytes@, pos as nat, v2) {
            Ok((d, q)) => r matches Ok((dm, m)) && dm@ == d && m == q,
            Err(e) => r == Err::<(DocMeta, usize), FormatError>(e),
        },
        r matches Ok((_, m)) ==> m <= bytes@.len(),
{
    reveal(spec_read_doc);
    if pos >= bytes.len() {
        return Err(FormatError::TruncatedDocs);
    }
    let doc_type = if bytes[pos] == 0 {
        String::from_str("page")
    } else {
        String::from_str("post")
    };
    assert(doc_type@ == spec_doc_type(bytes@[pos as int]));
    let (title, p1) = match read_text(bytes, pos + 1) {
        Ok(x) => x,
        Err(e) => return Err(e),
    };
    let (excerpt, p2) = match read_text(bytes, p1) {
        Ok(x) => x,
        Err(e) => return Err(e),
    };
    let (href, p3) = match read_text(bytes, p2) {
        Ok(x) => x,
        Err(e) => return Err(e),
    };
    let (section_id, p4) = match read_section_id(bytes, p3) {
        Ok(x) => x,
        Err(e) => return Err(e),
    };
    let (category, p5) = match read_opt_text(bytes, p4) {
        Ok(x) => x,
        Err(e) => return Err(e),
    };
    let (author, tags, p6) = match read_extras(bytes, p5, v2) {
        Ok(x) => x,
        Err(e) => return Err(e),
    };
    Ok((DocMeta { title, excerpt, href, doc_type, section_id, category, author, tags }, p6))
}

/// Decode docs from the binary docs section (v1 and v2 layouts).
pub fn decode_docs_binary(bytes: &[u8]) -> (r: Result<Vec<DocMeta>, FormatError>)
    ensures
        match spec_decode_docs(bytes@) {
            Ok(ds) => r matches Ok(v) && docs_view(v@) == ds,
            Err(e) => r == Err::<Vec<DocMeta>, FormatError>(e),
        },
{
    let mut docs: Vec<DocMeta> = Vec::new();
    if bytes.len() == 0 {
        assert(docs_view(docs@) =~= Seq::<DocFields>::empty());
        return Ok(docs);
    }
    let v2 = bytes[0] == DOCS_V2_MAGIC;
    let mut offset: usize = 0;
    if v2 {
        if bytes.len() < 2 {
            return Err(FormatError::MissingDocsVersion);
        }
        if bytes[1] != DOCS_VERSION {
            return Err(FormatError::UnsupportedDocsVersion);
        }
        offset = 2;
    }
    let (doc_count, size) = match decode_varint_at(bytes, offset) {
        Ok(x) => x,
        Err(e) => return Err(e),
    };
    offset = offset + size;
    let ghost total = spec_read_docs(bytes@, offset as nat, doc_count as nat, v2);
    assert(spec_decode_docs(bytes@) == match total {
        Ok((ds, _)) => Ok::<Seq<DocFields>, FormatError>(ds),
        Err(e) => Err(e),
    });
    let mut i: u64 = 0;
    while i < doc_count
        invariant
            i <= doc_count,
            spec_decode_docs(bytes@) == match total {
                Ok((ds, _)) => Ok::<Seq<DocFields>, FormatError>(ds),
                Err(e) => Err(e),
            },
            offset <= bytes@.len(),
            match spec_read_docs(bytes@, offset as nat, (doc_count - i) as nat, v2) {
                Ok((rest, q)) => total == Ok::<(Seq<DocFields>, nat), FormatError>((docs_view(docs@) + rest, q)),
                Err(e) => total == Err::<(Seq<DocFields>, nat), FormatError>(e),
            },
        decreases doc_count - i,
    {
        let (d, q) = match read_doc(bytes, offset, v2) {
            Ok(x) => x,
            Err(e) => return Err(e),
        };
        let ghost before = docs_view(docs@);
        let ghost dv = d@;
        docs.push(d);
        proof {
            assert(docs_view(docs@) =~= before.push(dv));
            match spec_read_docs(bytes@, q as nat, (doc_count - i - 1) as nat, v2) {
                Ok((rest, qq)) => {
                    assert(before + (seq![dv] + rest) =~= before.push(dv) + rest);
                },
                Err(e) => {},
            }
        }
        offset = q;
        i = i + 1;
    }
    assert(docs_view(docs@) + Seq::<DocFields>::empty() =~= docs_view(docs@));
    Ok(docs)
}

// ============================================================================
// ROUNDTRIP
// ============================================================================

/// The optional string a written one reads back as: empty reads as none.
pub open spec fn spec_non_empty(s: Seq<char>) -> Option<Seq<char>> {
    if s.len() == 0 { None } else { Some(s) }
}

/// What a document reads back as after being written: the type becomes
/// "page" or "post", and an empty category or author becomes none.
pub open spec fn spec_normalize_doc(d: DocFields) -> DocFields {
    DocFields {
        title: d.title,
        excerpt: d.excerpt,
        href: d.href,
        doc_type: spec_doc_type(spec_type_byte(d.doc_type)),
        section_id: d.section_id,
        category: spec_non_empty(spec_opt_text(d.category)),
        author: spec_non_empty(spec_opt_text(d.author)),
        tags: d.tags,
    }
}

/// The limits of a machine that could hold these documents and their encoding.
pub open spec fn docs_fit(docs: Seq<DocFields>) -> bool {
    &&& docs.len() <= usize::MAX
    &&& forall|i: int| 0 <= i < docs.len() ==> #[trigger] docs[i].tags.len() <= usize::MAX
    &&& spec_encode_docs(docs).len() <= usize::MAX
}

proof fn lemma_read_text_entry(bytes: Seq<u8>, pos: nat, s: Seq<char>, rest: Seq<u8>)
    requires
        pos <= bytes.len() <= usize::MAX,
        bytes.subrange(pos as int, bytes.len() as int) == spec_string_entry(s) + rest,
    ensures
        spec_read_text(bytes, pos) == Ok::<(Seq<char>, nat), FormatError>((s, pos + spec_string_entry(s).len())),
        bytes.subrange(pos as int + spec_string_entry(s).len(), bytes.len() as int) == rest,
{
    let e = encode_utf8(s);
    let v = spec_varint(e.len() as u64);
    assert(spec_string_entry(s) + rest =~= v + (e + rest));
    assert(e.len() <= u64::MAX);
    lemma_varint_roundtrip(e.len() as u64, e + rest);
    lemma_subrange_skip(bytes, pos as int, v, e + rest);
    let p = pos + v.len();
    assert(bytes.subrange(p as int, p as int + e.len()) =~= e) by {
        assert forall|j: int| 0 <= j < e.len() implies bytes.subrange(p as int, p as int + e.len())[j] == e[j] by {
            assert(bytes.subrange(p as int, bytes.len() as int)[j] == (e + rest)[j]);
        }
    }
    vstd::utf8::encode_utf8_valid_utf8(s);
    vstd::utf8::encode_utf8_decode_utf8(s);
    lemma_subrange_skip(bytes, pos as int, spec_string_entry(s), rest);
}

proof fn lemma_read_texts_entries(bytes: Seq<u8>, pos: nat, ss: Seq<Seq<char>>, rest: Seq<u8>)
    requires
        pos <= bytes.len() <= usize::MAX,
        bytes.subrange(pos as int, bytes.len() as int) == spec_strings_bytes(ss) + rest,
    ensures
        spec_read_texts(bytes, pos, ss.len()) == Ok::<(Seq<Seq<char>>, nat), FormatError>(
            (ss, pos + spec_strings_bytes(ss).len())),
        bytes.subrange(pos as int + spec_strings_bytes(ss).len(), bytes.len() as int) == rest,
    decreases ss.len(),
{
    let f = |x: Seq<char>| spec_string_entry(x);
    if ss.len() == 0 {
        assert(spec_strings_bytes(ss) =~= Seq::<u8>::empty());
        assert(spec_strings_bytes(ss) + rest =~= rest);
        assert(ss =~= Seq::<Seq<char>>::empty());
    } else {
        lemma_concat_map_front(ss, f);
        let first = spec_string_entry(ss[0]);
        let tail = spec_strings_bytes(ss.drop_first());
        assert(spec_strings_bytes(ss) + rest =~= first + (tail + rest));
        lemma_read_text_entry(bytes, pos, ss[0], tail + rest);
        lemma_read_texts_entries(bytes, pos + first.len(), ss.drop_first(), rest);
        assert(seq![ss[0]] + ss.drop_first() =~= ss);
    }
}

proof fn lemma_doc_bytes_shape(d: DocFields, rest: Seq<u8>)
    ensures
        spec_doc_bytes(d) + rest == seq![spec_type_byte(d.doc_type)] + (spec_string_entry(d.title)
            + (spec_string_entry(d.excerpt) + (spec_string_entry(d.href) + (spec_section_id_bytes(d.section_id)
            + (spec_string_entry(spec_opt_text(d.category)) + (spec_string_entry(spec_opt_text(d.author))
            + (spec_varint(d.tags.len() as u64) + (spec_strings_bytes(d.tags) + rest)))))))),
{
    let t = seq![spec_type_byte(d.doc_type)];
    let e1 = spec_string_entry(d.title);
    let e2 = spec_string_entry(d.excerpt);
    let e3 = spec_string_entry(d.href);
    let sb = spec_section_id_bytes(d.section_id);
    let e4 = spec_string_entry(spec_opt_text(d.category));
    let e5 = spec_string_entry(spec_opt_text(d.author));
    let vt = spec_varint(d.tags.len() as u64);
    let tb = spec_strings_bytes(d.tags);
    let a2 = t + e1;
    let a3 = a2 + e2;
    let a4 = a3 + e3;
    let a5 = a4 + sb;
    let a6 = a5 + e4;
    let a7 = a6 + e5;
    let a8 = a7 + vt;
    let x8 = tb + rest;
    let x7 = vt + x8;
    let x6 = e5 + x7;
    let x5 = e4 + x6;
    let x4 = sb + x5;
    let x3 = e3 + x4;
    let x2 = e2 + x3;
    let x1 = e1 + x2;
    vstd::seq_lib::lemma_concat_associative(a8, tb, rest);
    vstd::seq_lib::lemma_concat_associative(a7, vt, x8);
    vstd::seq_lib::lemma_concat_associative(a6, e5, x7);
    vstd::seq_lib::lemma_concat_associative(a5, e4, x6);
    vstd::seq_lib::lemma_concat_associative(a4, sb, x5);
    vstd::seq_lib::lemma_concat_associative(a3, e3, x4);
    vstd::seq_lib::lemma_concat_associative(a2, e2, x3);
    vstd::seq_lib::lemma_concat_associative(t, e1, x2);
}

proof fn lemma_section_entry(bytes: Seq<u8>, p4: nat, sid: Option<Seq<char>>, r5: Seq<u8>)
    requires
        p4 <= bytes.len() <= usize::MAX,
        bytes.subrange(p4 as int, bytes.len() as int) == spec_section_id_bytes(sid) + r5,
    ensures
        spec_read_section_id(bytes, p4) == Ok::<(Option<Seq<char>>, nat), FormatError>(
            (sid, p4 + spec_section_id_bytes(sid).len())),
        bytes.subrange(p4 as int + spec_section_id_bytes(sid).len(), bytes.len() as int) == r5,
{
    let sb = spec_section_id_bytes(sid);
    let r4 = sb + r5;
    assert(p4 < bytes.len()) by {
        assert(r4.len() == bytes.len() - p4);
    }
    match sid {
        Some(id) => {
            assert(bytes[p4 as int] == 1u8) by {
                assert(bytes.subrange(p4 as int, bytes.len() as int)[0] == r4[0]);
            }
            assert(r4 =~= seq![1u8] + (spec_string_entry(id) + r5));
            lemma_subrange_skip(bytes, p4 as int, seq![1u8], spec_string_entry(id) + r5);
            lemma_read_text_entry(bytes, p4 + 1, id, r5);
        },
        None => {
            assert(bytes[p4 as int] == 0u8) by {
                assert(bytes.subrange(p4 as int, bytes.len() as int)[0] == r4[0]);
            }
            lemma_subrange_skip(bytes, p4 as int, sb, r5);
        },
    }
}

proof fn lemma_doc_head(bytes: Seq<u8>, pos: nat, d: DocFields, r5: Seq<u8>)
    requires
        pos <= bytes.len() <= usize::MAX,
        bytes.subrange(pos as int, bytes.len() as int) == seq![spec_type_byte(d.doc_type)] + (spec_string_entry(d.title)
            + (spec_string_entry(d.excerpt) + (spec_string_entry(d.href) + (spec_section_id_bytes(d.section_id) + r5)))),
    ensures
        ({
            let p1 = pos + 1;
            let p2 = p1 + spec_string_entry(d.title).len();
            let p3 = p2 + spec_string_entry(d.excerpt).len();
            let p4 = p3 + spec_string_entry(d.href).len();
            let p5 = p4 + spec_section_id_bytes(d.section_id).len();
            &&& pos < bytes.len()
            &&& bytes[pos as int] == spec_type_byte(d.doc_type)
            &&& spec_read_text(bytes, p1) == Ok::<(Seq<char>, nat), FormatError>((d.title, p2))
            &&& spec_read_text(bytes, p2) == Ok::<(Seq<char>, nat), FormatError>((d.excerpt, p3))
            &&& spec_read_text(bytes, p3) == Ok::<(Seq<char>, nat), FormatError>((d.href, p4))
            &&& spec_read_section_id(bytes, p4) == Ok::<(Option<Seq<char>>, nat), FormatError>((d.section_id, p5))
            &&& bytes.subrange(p5 as int, bytes.len() as int) == r5
        }),
{
    let t = seq![spec_type_byte(d.doc_type)];
    let e1 = spec_string_entry(d.title);
    let e2 = spec_string_entry(d.excerpt);
    let e3 = spec_string_entry(d.href);
    let sb = spec_section_id_bytes(d.section_id);
    let r4 = sb + r5;
    let r3 = e3 + r4;
    let r2 = e2 + r3;
    let r1 = e1 + r2;
    assert((t + r1).len() == bytes.len() - pos);
    assert(bytes[pos as int] == spec_type_byte(d.doc_type)) by {
        assert(bytes.subrange(pos as int, bytes.len() as int)[0] == (t + r1)[0]);
        assert((t + r1)[0] == t[0]);
    }
    lemma_subrange_skip(bytes, pos as int, t, r1);
    let p1 = pos + 1;
    lemma_read_text_entry(bytes, p1, d.title, r2);
    let p2 = p1 + e1.len();
    lemma_read_text_entry(bytes, p2, d.excerpt, r3);
    let p3 = p2 + e2.len();
    lemma_read_text_entry(bytes, p3, d.href, r4);
    let p4 = p3 + e3.len();
    lemma_section_entry(bytes, p4, d.section_id, r5);
}

proof fn lemma_doc_tail(bytes: Seq<u8>, p5: nat, d: DocFields, rest: Seq<u8>)
    requires
        p5 <= bytes.len() <= usize::MAX,
        d.tags.len() <= usize::MAX,
        bytes.subrange(p5 as int, bytes.len() as int) == spec_string_entry(spec_opt_text(d.category))
            + (spec_string_entry(spec_opt_text(d.author)) + (spec_varint(d.tags.len() as u64)
            + (spec_strings_bytes(d.tags) + rest))),
    ensures
        ({
            let p6 = p5 + spec_string_entry(spec_opt_text(d.category)).len();
            let p7 = p6 + spec_string_entry(spec_opt_text(d.author)).len();
            let end = p7 + spec_varint(d.tags.len() as u64).len() + spec_strings_bytes(d.tags).len();
            &&& spec_read_opt_text(bytes, p5) == Ok::<(Option<Seq<char>>, nat), FormatError>(
                (spec_non_empty(spec_opt_text(d.category)), p6))
            &&& spec_read_extras(bytes, p6, true) == Ok::<(Option<Seq<char>>, Seq<Seq<char>>, nat), FormatError>(
                (spec_non_empty(spec_opt_text(d.author)), d.tags, end))
            &&& bytes.subrange(end as int, bytes.len() as int) == rest
        }),
{
    let e4 = spec_string_entry(spec_opt_text(d.category));
    let e5 = spec_string_entry(spec_opt_text(d.author));
    let vt = spec_varint(d.tags.len() as u64);
    let tb = spec_strings_bytes(d.tags);
    let r8 = tb + rest;
    let r7 = vt + r8;
    let r6 = e5 + r7;
    lemma_read_text_entry(bytes, p5, spec_opt_text(d.category), r6);
    let p6 = p5 + e4.len();
    lemma_read_text_entry(bytes, p6, spec_opt_text(d.author), r7);
    let p7 = p6 + e5.len();
    lemma_varint_roundtrip(d.tags.len() as u64, r8);
    lemma_subrange_skip(bytes, p7 as int, vt, r8);
    let p8 = p7 + vt.len();
    lemma_read_texts_entries(bytes, p8, d.tags, rest);
}

proof fn lemma_read_doc_entry(bytes: Seq<u8>, pos: nat, d: DocFields, rest: Seq<u8>)
    requires
        pos <= bytes.len() <= usize::MAX,
        d.tags.len() <= usize::MAX,
        bytes.subrange(pos as int, bytes.len() as int) == spec_doc_bytes(d) + rest,
    ensures
        spec_read_doc(bytes, pos, true) == Ok::<(DocFields, nat), FormatError>(
            (spec_normalize_doc(d), pos + spec_doc_bytes(d).len())),
        bytes.subrange(pos as int + spec_doc_bytes(d).len(), bytes.len() as int) == rest,
{
    reveal(spec_read_doc);
    let e4 = spec_string_entry(spec_opt_text(d.category));
    let e5 = spec_string_entry(spec_opt_text(d.author));
    let vt = spec_varint(d.tags.len() as u64);
    let tb = spec_strings_bytes(d.tags);
    let r5 = e4 + (e5 + (vt + (tb + rest)));
    lemma_doc_bytes_shape(d, rest);
    lemma_doc_head(bytes, pos, d, r5);
    let p5 = pos + 1 + spec_string_entry(d.title).len() + spec_string_entry(d.excerpt).len()
        + spec_string_entry(d.href).len() + spec_section_id_bytes(d.section_id).len();
    lemma_doc_tail(bytes, p5, d, rest);
}

proof fn lemma_read_docs_entries(bytes: Seq<u8>, pos: nat, docs: Seq<DocFields>, rest: Seq<u8>)
    requires
        pos <= bytes.len() <= usize::MAX,
        forall|i: int| 0 <= i < docs.len() ==> #[trigger] docs[i].tags.len() <= usize::MAX,
        bytes.subrange(pos as int, bytes.len() as int) == concat_map(docs, |d: DocFields| spec_doc_bytes(d)) + rest,
    ensures
        spec_read_docs(bytes, pos, docs.len(), true) == Ok::<(Seq<DocFields>, nat), FormatError>(
            (docs.map_values(|d: DocFields| spec_normalize_doc(d)),
             pos + concat_map(docs, |d: DocFields| spec_doc_bytes(d)).len())),
    decreases docs.len(),
{
    let f = |d: DocFields| spec_doc_bytes(d);
    if docs.len() == 0 {
        assert(concat_map(docs, f) =~= Seq::<u8>::empty());
        assert(docs.map_values(|d: DocFields| spec_normalize_doc(d)) =~= Seq::<DocFields>::empty());
    } else {
        lemma_concat_map_front(docs, f);
        let first = spec_doc_bytes(docs[0]);
        let tail = concat_map(docs.drop_first(), f);
        assert(concat_map(docs, f) + rest =~= first + (tail + rest));
        assert(docs[0].tags.len() <= usize::MAX);
        lemma_read_doc_entry(bytes, pos, docs[0], tail + rest);
        assert forall|i: int| 0 <= i < docs.drop_first().len() implies #[trigger] docs.drop_first()[i].tags.len() <= usize::MAX by {
            assert(docs.drop_first()[i] == docs[i + 1]);
        }
        lemma_read_docs_entries(bytes, pos + first.len(), docs.drop_first(), rest);
        assert(seq![spec_normalize_doc(docs[0])] + docs.drop_first().map_values(|d: DocFields| spec_normalize_doc(d))
            =~= docs.map_values(|d: DocFields| spec_normalize_doc(d)));
    }
}

/// Decoding an encoded docs section gives back each document, with its type
/// read as "page" or "post" and an empty category or author read as none.
pub proof fn lemma_docs_roundtrip(docs: Seq<DocFields>)
    requires
        docs_fit(docs),
    ensures
        spec_decode_docs(spec_encode_docs(docs)) == Ok::<Seq<DocFields>, FormatError>(
            docs.map_values(|d: DocFields| spec_normalize_doc(d))),
{
    let b = spec_encode_docs(docs);
    let v = spec_varint(docs.len() as u64);
    let body = concat_map(docs, |d: DocFields| spec_doc_bytes(d));
    assert(b[0] == 0xFEu8);
    assert(b[1] == 2u8);
    assert(b.subrange(2, b.len() as int) =~= v + body);
    lemma_varint_roundtrip(docs.len() as u64, body);
    lemma_subrange_skip(b, 2, v, body);
    assert(body + Seq::<u8>::empty() =~= body);
    lemma_read_docs_entries(b, 2 + v.len(), docs, Seq::<u8>::empty());
}

} // verus!
