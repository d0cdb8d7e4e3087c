//! Build inputs: the documents to index, the manifest that lists them, and
//! the filters that pick the documents of each index.

use vstd::prelude::*;

use crate::display::str_eq;
use crate::types::FieldBoundary;

verus! {

/// A document to index, as read from the input directory.
#[derive(Clone, Debug)]
pub struct Document {
    pub id: usize,
    pub slug: String,
    pub title: String,
    pub excerpt: String,
    pub href: String,
    pub doc_type: String,
    pub category: Option<String>,
    /// Author name (for multi-author blogs)
    pub author: Option<String>,
    /// Tags/labels for categorization
    pub tags: Vec<String>,
    pub text: String,
    pub field_boundaries: Vec<FieldBoundary>,
}

/// The manifest of an input directory: its document files and the indexes
/// to build (by name).
#[derive(Clone, Debug)]
pub struct InputManifest {
    pub version: u32,
    pub documents: Vec<String>,
    pub indexes: Vec<(String, IndexDefinition)>,
}

/// One index to build: which documents it includes, which fields.
#[derive(Clone, Debug)]
pub struct IndexDefinition {
    pub inclusion: IncludeFilterValue,
    pub fields: Option<Vec<String>>,
}

/// The include filter as written in a manifest.
#[derive(Clone, Debug)]
pub enum IncludeFilterValue {
    /// Match all documents (represented as "*")
    All(String),
    /// Match documents by field=value criteria
    Filter(Vec<(String, String)>),
}

/// Normalized include filter for matching
#[derive(Clone, Debug)]
pub enum IncludeFilter {
    All,
    Filter(Vec<(String, String)>),
}

/// Normalized index definition with include filter
#[derive(Clone, Debug)]
pub struct NormalizedIndexDefinition {
    pub inclusion: IncludeFilter,
    pub fields: Option<Vec<String>>,
}

/// What a written filter normalizes to.
pub open spec fn spec_include_filter(val: IncludeFilterValue) -> IncludeFilter {
    match val {
        IncludeFilterValue::All(_) => IncludeFilter::All,
        IncludeFilterValue::Filter(f) => IncludeFilter::Filter(f),
    }
}

impl From<IncludeFilterValue> for IncludeFilter {
    fn from(val: IncludeFilterValue) -> (r: IncludeFilter) {
        match val {
            IncludeFilterValue::All(_) => IncludeFilter::All,
            IncludeFilterValue::Filter(f) => IncludeFilter::Filter(f),
        }
    }
}

impl vstd::std_specs::convert::FromSpecImpl<IncludeFilterValue> for IncludeFilter {
    open spec fn obeys_from_spec() -> bool {
        true
    }

    open spec fn from_spec(val: IncludeFilterValue) -> IncludeFilter {
        spec_include_filter(val)
    }
}

/// A `key = value` criterion admits a document: "category" asks for that
/// category, "type" for that type, and any other key admits every document.
pub open spec fn criterion_admits(key: Seq<char>, value: Seq<char>, doc: Document) -> bool {
    if key == "category"@ {
        match doc.category {
            Some(c) => c@ == value,
            None => false,
        }
    } else if key == "type"@ {
        doc.doc_type@ == value
    } else {
        true
    }
}

/// Every criterion admits the document.
pub open spec fn criteria_admit(criteria: Seq<(String, String)>, doc: Document) -> bool {
    forall|i: int| 0 <= i < criteria.len() ==> criterion_admits((#[trigger] criteria[i]).0@, criteria[i].1@, doc)
}

impl IncludeFilter {
    /// The filter admits the document: "all" admits every document, a list
    /// of criteria those that every criterion admits.
    pub open spec fn admits(self, doc: Document) -> bool {
        match self {
            IncludeFilter::All => true,
            IncludeFilter::Filter(criteria) => criteria_admit(criteria@, doc),
        }
    }

    /// Check if a document matches this filter
    pub fn matches(&self, doc: &Document) -> (r: bool)
        ensures
            r == self.admits(*doc),
    {
        match self {
            IncludeFilter::All => true,
            IncludeFilter::Filter(criteria) => {
                let mut i: usize = 0;
                while i < criteria.len()
                    invariant
                        i <= criteria@.len(),
                        *self == IncludeFilter::Filter(*criteria),
                        forall|k: int| 0 <= k < i ==> criterion_admits((#[trigger] criteria@[k]).0@, criteria@[k].1@, *doc),
                    decreases criteria@.len() - i,
                {
                    let key = criteria[i].0.as_str();
                    let value = &criteria[i].1;
                    let ok = if str_eq(key, "category") {
                        match &doc.category {
                            Some(c) => *c == *value,
                            None => false,
                        }
                    } else if str_eq(key, "type") {
                        doc.doc_type == *value
                    } else {
                        true
                    };
                    assert(ok == criterion_admits(criteria@[i as int].0@, criteria@[i as int].1@, *doc));
                    if !ok {
                        proof {
                            assert(*self == IncludeFilter::Filter(*criteria));
                            assert(!criterion_admits(criteria@[i as int].0@, criteria@[i as int].1@, *doc));
                        }
                        return false;
                    }
                    i = i + 1;
                }
                true
            },
        }
    }
}

} // verus!
