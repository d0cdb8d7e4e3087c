//! Field lookup for scoring: which field a text position falls in.

use vstd::prelude::*;

use crate::types::{FieldBoundary, FieldType, SearchIndex};

verus! {

/// Whether boundary `b` covers `offset` of document `doc_id`.
pub open spec fn covers(b: FieldBoundary, doc_id: usize, offset: usize) -> bool {
    b.doc_id == doc_id && b.start <= offset && offset < b.end
}

/// The field type of the first boundary covering the position, or content
/// when none does.
pub open spec fn spec_field_type(boundaries: Seq<FieldBoundary>, doc_id: usize, offset: usize) -> FieldType
    decreases boundaries.len(),
{
    if boundaries.len() == 0 {
        FieldType::Content
    } else if covers(boundaries[0], doc_id, offset) {
        boundaries[0].field_type
    } else {
        spec_field_type(boundaries.drop_first(), doc_id, offset)
    }
}

/// Get the field type from a list of boundaries: the first boundary that
/// contains the position decides; content when none does.
pub fn get_field_type_from_boundaries(doc_id: usize, offset: usize, boundaries: &[FieldBoundary]) -> (r: FieldType)
    ensures
        r == spec_field_type(boundaries@, doc_id, offset),
{
    let mut i: usize = 0;
    assert(boundaries@.skip(0) =~= boundaries@);
    while i < boundaries.len()
        invariant
            i <= boundaries@.len(),
            spec_field_type(boundaries@, doc_id, offset) == spec_field_type(boundaries@.skip(i as int), doc_id, offset),
        decreases boundaries@.len() - i,
    {
        let b = &boundaries[i];
        assert(boundaries@.skip(i as int)[0] == boundaries@[i as int]);
        if b.doc_id == doc_id && offset >= b.start && offset < b.end {
            return b.field_type;
        }
        assert(boundaries@.skip(i as int).drop_first() =~= boundaries@.skip(i as int + 1));
        i = i + 1;
    }
    FieldType::Content
}

/// Get the field type for a given position in a document of the index.
pub fn get_field_type(index: &SearchIndex, doc_id: usize, offset: usize) -> (r: FieldType)
    ensures
        r == spec_field_type(index.field_boundaries@, doc_id, offset),
{
    get_field_type_from_boundaries(doc_id, offset, index.field_boundaries.as_slice())
}

} // verus!
