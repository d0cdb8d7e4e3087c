//! The steps of an index build that prepare its inputs: choosing the
//! documents an index definition admits, numbering them afresh, keeping the
//! field boundaries its field list allows, and the table of section anchors
//! that postings point into.

use vstd::prelude::*;
use vstd::utf8::{encode_utf8, encode_utf8_decode_utf8};

use crate::binary::loaded::section_at;
use crate::display::str_eq;
use crate::manifest::{Document, NormalizedIndexDefinition};
use crate::text::{compare_bytes, lemma_lex_irreflexive, lemma_lex_total, lemma_lex_trans, lex_lt, Comparison};
use crate::types::{FieldBoundary, FieldType, SearchDoc};

verus! {

/// The documents that the definition's filter admits, in their order.
pub open spec fn kept_documents(def: NormalizedIndexDefinition, docs: Seq<Document>) -> Seq<Document>
    decreases docs.len(),
{
    if docs.len() == 0 {
        Seq::empty()
    } else {
        let prev = kept_documents(def, docs.drop_last());
        if def.inclusion.admits(docs.last()) {
            prev.push(docs.last())
        } else {
            prev
        }
    }
}

/// The search document made of a kept document under its new id.
pub open spec fn search_doc_of(d: Document, id: usize, sd: SearchDoc) -> bool {
    &&& sd.id == id
    &&& sd.title == d.title
    &&& sd.excerpt == d.excerpt
    &&& sd.href == d.href
    &&& sd.kind == d.doc_type
    &&& sd.category == d.category
    &&& sd.author == d.author
    &&& sd.tags@ == d.tags@
}

/// The field list lets a field through: no list lets every field through,
/// a list those it names.
pub open spec fn field_allowed(fields: Option<Vec<String>>, ft: FieldType) -> bool {
    match fields {
        None => true,
        Some(list) => exists|k: int| 0 <= k < list@.len() && #[trigger] list@[k]@ == ft.label(),
    }
}

/// A document's boundaries that the field list lets through, moved to the
/// document's new id.
pub open spec fn remap_boundaries(bs: Seq<FieldBoundary>, fields: Option<Vec<String>>, id: usize) -> Seq<FieldBoundary>
    decreases bs.len(),
{
    if bs.len() == 0 {
        Seq::empty()
    } else {
        let prev = remap_boundaries(bs.drop_last(), fields, id);
        let b = bs.last();
        if field_allowed(fields, b.field_type) {
            prev.push(
                FieldBoundary {
                    doc_id: id,
                    start: b.start,
                    end: b.end,
                    field_type: b.field_type,
                    section_id: b.section_id,
                },
            )
        } else {
            prev
        }
    }
}

/// The boundaries of all kept documents, each moved to its document's new
/// id (its place among the kept documents).
pub open spec fn all_remapped(kept: Seq<Document>, fields: Option<Vec<String>>) -> Seq<FieldBoundary>
    decreases kept.len(),
{
    if kept.len() == 0 {
        Seq::empty()
    } else {
        all_remapped(kept.drop_last(), fields) + remap_boundaries(
            kept.last().field_boundaries@,
            fields,
            (kept.len() - 1) as usize,
        )
    }
}

fn copy_string_option(o: &Option<String>) -> (r: Option<String>)
    ensures
        r == *o,
{
    match o {
        Some(s) => Some(s.clone()),
        None => None,
    }
}

fn copy_strings(v: &Vec<String>) -> (r: Vec<String>)
    ensures
        r@ == v@,
{
    let mut r: Vec<String> = Vec::new();
    let mut i: usize = 0;
    while i < v.len()
        invariant
            i <= v@.len(),
            r@ == v@.take(i as int),
        decreases v@.len() - i,
    {
        r.push(v[i].clone());
        i = i + 1;
        assert(r@ =~= v@.take(i as int));
    }
    assert(v@.take(i as int) =~= v@);
    r
}

/// Whether the field list lets a field through.
fn field_is_allowed(fields: &Option<Vec<String>>, ft: FieldType) -> (r: bool)
    ensures
        r == field_allowed(*fields, ft),
{
    match fields {
        None => true,
        Some(list) => {
            let name = ft.as_str();
            let mut k: usize = 0;
            while k < list.len()
                invariant
                    k <= list@.len(),
                    *fields == Some(*list),
                    name@ == ft.label(),
                    forall|m: int| 0 <= m < k ==> list@[m]@ != ft.label(),
                decreases list@.len() - k,
            {
                if str_eq(list[k].as_str(), name) {
                    assert(fields->0@ == list@);
                    assert(fields->0@[k as int]@ == ft.label());
                    return true;
                }
                k = k + 1;
            }
            false
        },
    }
}

/// Append a document's boundaries that the field list lets through, moved
/// to the document's new id.
fn append_boundaries(out: &mut Vec<FieldBoundary>, bs: &Vec<FieldBoundary>, fields: &Option<Vec<String>>, id: usize)
    ensures
        final(out)@ == old(out)@ + remap_boundaries(bs@, *fields, id),
{
    let ghost start = out@;
    let mut k: usize = 0;
    assert(start + remap_boundaries(bs@.take(0), *fields, id) =~= start);
    while k < bs.len()
        invariant
            k <= bs@.len(),
            out@ == start + remap_boundaries(bs@.take(k as int), *fields, id),
        decreases bs@.len() - k,
    {
        let b = &bs[k];
        assert(bs@.take(k + 1).drop_last() =~= bs@.take(k as int));
        if field_is_allowed(fields, b.field_type) {
            out.push(
                FieldBoundary {
                    doc_id: id,
                    start: b.start,
                    end: b.end,
                    field_type: b.field_type,
                    section_id: copy_string_option(&b.section_id),
                },
            );
        }
        k = k + 1;
        assert(out@ =~= start + remap_boundaries(bs@.take(k as int), *fields, id));
    }
    assert(bs@.take(k as int) =~= bs@);
}

/// The documents an index definition admits, numbered afresh from 0 in
/// their order, with their texts and the field boundaries its field list
/// allows, moved to the new numbers.
pub fn select_documents(def: &NormalizedIndexDefinition, documents: &[Document]) -> (r: (
    Vec<SearchDoc>,
    Vec<String>,
    Vec<FieldBoundary>,
))
    ensures
        r.0@.len() == kept_documents(*def, documents@).len(),
        r.1@.len() == kept_documents(*def, documents@).len(),
        forall|i: int|
            0 <= i < r.0@.len() ==> search_doc_of(kept_documents(*def, documents@)[i], i as usize, #[trigger] r.0@[i]),
        forall|i: int| 0 <= i < r.1@.len() ==> #[trigger] r.1@[i] == kept_documents(*def, documents@)[i].text,
        r.2@ == all_remapped(kept_documents(*def, documents@), def.fields),
{
    let mut search_docs: Vec<SearchDoc> = Vec::new();
    let mut texts: Vec<String> = Vec::new();
    let mut all_boundaries: Vec<FieldBoundary> = Vec::new();
    let mut j: usize = 0;
    assert(documents@.take(0) =~= Seq::<Document>::empty());
    while j < documents.len()
        invariant
            j <= documents@.len(),
            search_docs@.len() == kept_documents(*def, documents@.take(j as int)).len(),
            texts@.len() == search_docs@.len(),
            forall|i: int|
                0 <= i < search_docs@.len() ==> search_doc_of(
                    kept_documents(*def, documents@.take(j as int))[i],
                    i as usize,
                    #[trigger] search_docs@[i],
                ),
            forall|i: int|
                0 <= i < texts@.len() ==> #[trigger] texts@[i] == kept_documents(
                    *def,
                    documents@.take(j as int),
                )[i].text,
            all_boundaries@ == all_remapped(kept_documents(*def, documents@.take(j as int)), def.fields),
        decreases documents@.len() - j,
    {
        let doc = &documents[j];
        let ghost prev = kept_documents(*def, documents@.take(j as int));
        assert(documents@.take(j + 1).drop_last() =~= documents@.take(j as int));
        assert(documents@.take(j + 1).last() == *doc);
        if def.inclusion.matches(doc) {
            let new_id = search_docs.len();
            let sd = SearchDoc {
                id: new_id,
                title: doc.title.clone(),
                excerpt: doc.excerpt.clone(),
                href: doc.href.clone(),
                kind: doc.doc_type.clone(),
                category: copy_string_option(&doc.category),
                author: copy_string_option(&doc.author),
                tags: copy_strings(&doc.tags),
            };
            search_docs.push(sd);
            texts.push(doc.text.clone());
            append_boundaries(&mut all_boundaries, &doc.field_boundaries, &def.fields, new_id);
            proof {
                let now = kept_documents(*def, documents@.take(j + 1));
                assert(now == prev.push(*doc));
                assert(now.drop_last() =~= prev);
                assert forall|i: int| 0 <= i < search_docs@.len() implies search_doc_of(
                    now[i],
                    i as usize,
                    #[trigger] search_docs@[i],
                ) by {
                    if i < prev.len() {
                        assert(now[i] == prev[i]);
                    }
                }
                assert forall|i: int| 0 <= i < texts@.len() implies #[trigger] texts@[i] == now[i].text by {
                    if i < prev.len() {
                        assert(now[i] == prev[i]);
                    }
                }
            }
        }
        j = j + 1;
    }
    assert(documents@.take(j as int) =~= documents@);
    (search_docs, texts, all_boundaries)
}

/// The boundary carries this section anchor.
pub open spec fn has_section(b: FieldBoundary, s: Seq<char>) -> bool {
    b.section_id matches Some(id) && id@ == s
}

/// Some boundary carries this section anchor.
pub open spec fn carries_section(bs: Seq<FieldBoundary>, s: Seq<char>) -> bool {
    exists|k: int| 0 <= k < bs.len() && #[trigger] has_section(bs[k], s)
}

/// The table is in strictly increasing byte order, so no anchor occurs twice.
pub open spec fn strictly_sorted(table: Seq<String>) -> bool {
    forall|i: int, j: int|
        0 <= i < j < table.len() ==> lex_lt(encode_utf8(#[trigger] table[i]@), encode_utf8(#[trigger] table[j]@))
}

/// Where an anchor goes into a strictly sorted table: before the first
/// entry not below it.
fn sorted_position(table: &Vec<String>, s: &String) -> (p: usize)
    requires
        strictly_sorted(table@),
    ensures
        p <= table@.len(),
        forall|k: int| 0 <= k < p ==> lex_lt(encode_utf8(#[trigger] table@[k]@), encode_utf8(s@)),
        p < table@.len() ==> !lex_lt(encode_utf8(table@[p as int]@), encode_utf8(s@)),
{
    let sb = s.as_str().as_bytes();
    let mut p: usize = 0;
    while p < table.len()
        invariant
            p <= table@.len(),
            sb@ == encode_utf8(s@),
            forall|k: int| 0 <= k < p ==> lex_lt(encode_utf8(#[trigger] table@[k]@), encode_utf8(s@)),
        decreases table@.len() - p,
    {
        match compare_bytes(table[p].as_str().as_bytes(), sb) {
            Comparison::Less => {},
            _ => {
                return p;
            },
        }
        p = p + 1;
    }
    p
}

/// The table of section anchors: every anchor that some boundary carries,
/// once each, in byte order.
pub fn build_section_table(boundaries: &[FieldBoundary]) -> (table: Vec<String>)
    ensures
        strictly_sorted(table@),
        forall|i: int| 0 <= i < table@.len() ==> carries_section(boundaries@, #[trigger] table@[i]@),
        forall|s: Seq<char>|
            carries_section(boundaries@, s) ==> exists|i: int| 0 <= i < table@.len() && #[trigger] table@[i]@ == s,
{
    let mut table: Vec<String> = Vec::new();
    let mut k: usize = 0;
    while k < boundaries.len()
        invariant
            k <= boundaries@.len(),
            strictly_sorted(table@),
            forall|i: int| 0 <= i < table@.len() ==> carries_section(boundaries@, #[trigger] table@[i]@),
            forall|m: int, id: String|
                0 <= m < k && boundaries@[m].section_id == Some(id) ==> exists|i: int|
                    0 <= i < table@.len() && #[trigger] table@[i]@ == id@,
        decreases boundaries@.len() - k,
    {
        match &boundaries[k].section_id {
            Some(sid) => {
                let p = sorted_position(&table, sid);
                let present = p < table.len() && table[p] == *sid;
                assert(has_section(boundaries@[k as int], sid@));
                if !present {
                    let ghost before = table@;
                    proof {
                        if p < before.len() {
                            encode_utf8_decode_utf8(before[p as int]@);
                            encode_utf8_decode_utf8(sid@);
                            lemma_lex_total(encode_utf8(before[p as int]@), encode_utf8(sid@));
                        }
                    }
                    table.insert(p, sid.clone());
                    proof {
                        assert(table@ == before.insert(p as int, *sid));
                        let sb = encode_utf8(sid@);
                        assert forall|i: int, j: int| 0 <= i < j < table@.len() implies lex_lt(
                            encode_utf8(#[trigger] table@[i]@),
                            encode_utf8(#[trigger] table@[j]@),
                        ) by {
                            if j < p {
                            } else if j == p {
                                assert(lex_lt(encode_utf8(before[i]@), sb));
                            } else if i == p {
                                assert(lex_lt(sb, encode_utf8(before[p as int]@)));
                                if j - 1 > p {
                                    lemma_lex_trans(sb, encode_utf8(before[p as int]@), encode_utf8(before[j - 1]@));
                                }
                            } else if i < p {
                                assert(lex_lt(encode_utf8(before[i]@), sb));
                                assert(lex_lt(sb, encode_utf8(before[p as int]@)));
                                lemma_lex_trans(encode_utf8(before[i]@), sb, encode_utf8(before[p as int]@));
                                if j - 1 > p {
                                    lemma_lex_trans(
                                        encode_utf8(before[i]@),
                                        encode_utf8(before[p as int]@),
                                        encode_utf8(before[j - 1]@),
                                    );
                                }
                            } else {
                                assert(lex_lt(encode_utf8(before[i - 1]@), encode_utf8(before[j - 1]@)));
                            }
                        }
                        assert forall|i: int| 0 <= i < table@.len() implies carries_section(
                            boundaries@,
                            #[trigger] table@[i]@,
                        ) by {
                            if i < p {
                                assert(table@[i] == before[i]);
                            } else if i > p {
                                assert(table@[i] == before[i - 1]);
                            }
                        }
                        assert forall|m: int, id: String|
                            0 <= m < k + 1 && boundaries@[m].section_id == Some(id) implies exists|i: int|
                            0 <= i < table@.len() && #[trigger] table@[i]@ == id@ by {
                            if m < k {
                                let i0 = choose|i: int| 0 <= i < before.len() && #[trigger] before[i]@ == id@;
                                if i0 < p {
                                    assert(table@[i0] == before[i0]);
                                } else {
                                    assert(table@[i0 + 1] == before[i0]);
                                }
                            } else {
                                assert(table@[p as int] == *sid);
                            }
                        }
                    }
                } else {
                    proof {
                        assert forall|m: int, id: String|
                            0 <= m < k + 1 && boundaries@[m].section_id == Some(id) implies exists|i: int|
                            0 <= i < table@.len() && #[trigger] table@[i]@ == id@ by {
                            if m == k {
                                assert(table@[p as int]@ == id@);
                            }
                        }
                    }
                }
            },
            None => {},
        }
        k = k + 1;
    }
    proof {
        assert forall|s: Seq<char>| carries_section(boundaries@, s) implies exists|i: int|
            0 <= i < table@.len() && #[trigger] table@[i]@ == s by {
            let m = choose|m: int| 0 <= m < boundaries@.len() && #[trigger] has_section(boundaries@[m], s);
            let id = boundaries@[m].section_id->0;
            assert(boundaries@[m].section_id == Some(id));
        }
    }
    table
}

/// The table holds this anchor.
pub open spec fn holds_anchor(t: Seq<String>, s: Seq<char>) -> bool {
    exists|j: int| 0 <= j < t.len() && t[j]@ == s
}

/// The section table is determined by the anchors it holds: two tables in
/// strictly increasing byte order with the same anchors are the same, so
/// boundaries that carry the same anchors, in any order, give one table.
#[verifier::spinoff_prover]
pub proof fn lemma_section_table_determined(t1: Seq<String>, t2: Seq<String>)
    requires
        strictly_sorted(t1),
        strictly_sorted(t2),
        forall|i: int| 0 <= i < t1.len() ==> #[trigger] holds_anchor(t2, t1[i]@),
        forall|j: int| 0 <= j < t2.len() ==> #[trigger] holds_anchor(t1, t2[j]@),
    ensures
        t1.len() == t2.len(),
        forall|i: int| 0 <= i < t1.len() ==> #[trigger] t1[i]@ == t2[i]@,
    decreases t1.len() + t2.len(),
{
    if t1.len() > 0 && t2.len() > 0 {
        assert(holds_anchor(t2, t1[0]@));
        assert(holds_anchor(t1, t2[0]@));
        let j0 = choose|j: int| 0 <= j < t2.len() && t2[j]@ == t1[0]@;
        let i0 = choose|i: int| 0 <= i < t1.len() && t1[i]@ == t2[0]@;
        if j0 > 0 {
            assert(lex_lt(encode_utf8(t2[0]@), encode_utf8(t2[j0]@)));
            if i0 > 0 {
                assert(lex_lt(encode_utf8(t1[0]@), encode_utf8(t1[i0]@)));
                lemma_lex_trans(encode_utf8(t1[0]@), encode_utf8(t1[i0]@), encode_utf8(t1[0]@));
            }
            lemma_lex_irreflexive(encode_utf8(t1[0]@));
        } else if i0 > 0 {
            assert(lex_lt(encode_utf8(t1[0]@), encode_utf8(t1[i0]@)));
            lemma_lex_irreflexive(encode_utf8(t2[0]@));
        }
        assert(t1[0]@ == t2[0]@);
        let r1 = t1.drop_first();
        let r2 = t2.drop_first();
        assert forall|i: int| 0 <= i < r1.len() implies #[trigger] holds_anchor(r2, r1[i]@) by {
            assert(r1[i] == t1[i + 1]);
            assert(holds_anchor(t2, t1[i + 1]@));
            let j = choose|j: int| 0 <= j < t2.len() && t2[j]@ == t1[i + 1]@;
            assert(lex_lt(encode_utf8(t1[0]@), encode_utf8(t1[i + 1]@)));
            if j == 0 {
                lemma_lex_irreflexive(encode_utf8(t1[0]@));
            }
            assert(r2[j - 1] == t2[j]);
        }
        assert forall|j: int| 0 <= j < r2.len() implies #[trigger] holds_anchor(r1, r2[j]@) by {
            assert(r2[j] == t2[j + 1]);
            assert(holds_anchor(t1, t2[j + 1]@));
            let i = choose|i: int| 0 <= i < t1.len() && t1[i]@ == t2[j + 1]@;
            assert(lex_lt(encode_utf8(t2[0]@), encode_utf8(t2[j + 1]@)));
            if i == 0 {
                lemma_lex_irreflexive(encode_utf8(t2[0]@));
            }
            assert(r1[i - 1] == t1[i]);
        }
        assert(strictly_sorted(r1)) by {
            assert forall|a: int, b: int| 0 <= a < b < r1.len() implies lex_lt(
                encode_utf8(#[trigger] r1[a]@),
                encode_utf8(#[trigger] r1[b]@),
            ) by {
                assert(r1[a] == t1[a + 1] && r1[b] == t1[b + 1]);
            }
        }
        assert(strictly_sorted(r2)) by {
            assert forall|a: int, b: int| 0 <= a < b < r2.len() implies lex_lt(
                encode_utf8(#[trigger] r2[a]@),
                encode_utf8(#[trigger] r2[b]@),
            ) by {
                assert(r2[a] == t2[a + 1] && r2[b] == t2[b + 1]);
            }
        }
        lemma_section_table_determined(r1, r2);
        assert forall|i: int| 0 <= i < t1.len() implies #[trigger] t1[i]@ == t2[i]@ by {
            if i > 0 {
                assert(r1[i - 1] == t1[i] && r2[i - 1] == t2[i]);
            }
        }
    } else if t1.len() > 0 {
        assert(holds_anchor(t2, t1[0]@));
    } else if t2.len() > 0 {
        assert(holds_anchor(t1, t2[0]@));
    }
}

/// The section index that an anchor gets in a table: one more than its
/// first position, or 0 for no anchor or one the table lacks.
pub open spec fn section_number(table: Seq<String>, section_id: Option<String>) -> nat
    decreases table.len(),
{
    match section_id {
        None => 0,
        Some(s) => if table.len() == 0 {
            0
        } else {
            let prev = section_number(table.drop_last(), section_id);
            if prev > 0 {
                prev
            } else if table.last()@ == s@ {
                table.len()
            } else {
                0
            }
        },
    }
}

/// Look an anchor up in the section table.
pub fn section_index(table: &[String], section_id: &Option<String>) -> (r: u32)
    requires
        table@.len() < u32::MAX,
    ensures
        r == section_number(table@, *section_id),
{
    match section_id {
        None => 0,
        Some(s) => {
            let mut i: usize = 0;
            while i < table.len()
                invariant
                    i <= table@.len(),
                    table@.len() < u32::MAX,
                    *section_id == Some(*s),
                    section_number(table@.take(i as int), *section_id) == 0,
                decreases table@.len() - i,
            {
                assert(table@.take(i + 1).drop_last() =~= table@.take(i as int));
                if table[i] == *s {
                    proof {
                        lemma_section_number_prefix(table@, *section_id, i as int + 1);
                    }
                    return (i + 1) as u32;
                }
                i = i + 1;
            }
            assert(table@.take(i as int) =~= table@);
            0
        },
    }
}

proof fn lemma_section_number_prefix(table: Seq<String>, section_id: Option<String>, n: int)
    requires
        0 < n <= table.len(),
        section_number(table.take(n), section_id) > 0,
    ensures
        section_number(table, section_id) == section_number(table.take(n), section_id),
    decreases table.len() - n,
{
    if n < table.len() {
        assert(table.take(n + 1).drop_last() =~= table.take(n));
        lemma_section_number_prefix(table, section_id, n + 1);
    } else {
        assert(table.take(n) =~= table);
    }
}

/// The section number of an anchor is 0 or points at that anchor.
proof fn lemma_section_number_points(table: Seq<String>, section_id: Option<String>)
    ensures
        section_number(table, section_id) <= table.len(),
        section_number(table, section_id) > 0 ==> (section_id matches Some(s)
            && table[section_number(table, section_id) - 1]@ == s@),
        section_number(table, section_id) == 0 ==> (section_id matches Some(s) ==> forall|i: int|
            0 <= i < table.len() ==> #[trigger] table[i]@ != s@),
    decreases table.len(),
{
    if table.len() > 0 && section_id is Some {
        let prefix = table.drop_last();
        lemma_section_number_points(prefix, section_id);
        assert forall|i: int| 0 <= i < prefix.len() implies #[trigger] table[i] == prefix[i] by {}
    }
}

/// An anchor that a posting records by its section index reads back as
/// the same anchor, and one the table lacks reads back as none.
pub proof fn lemma_section_index_resolves(table: Seq<String>, s: String)
    ensures
        section_at(table, section_number(table, Some(s))) == (if exists|i: int| 0 <= i < table.len() && #[trigger] table[i]@ == s@ {
            Some(s@)
        } else {
            None::<Seq<char>>
        }),
{
    lemma_section_number_points(table, Some(s));
}

} // verus!
