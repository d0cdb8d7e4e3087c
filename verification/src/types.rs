//! Core index types: documents, field boundaries, suffix entries.

use vstd::prelude::*;

verus! {

/// Which part of a document a position belongs to.
#[derive(Debug, Clone, Copy, PartialEq, Eq, Structural)]
pub enum FieldType {
    Title,
    Heading,
    Content,
}

impl FieldType {
    /// The field's name, as index definitions list it.
    pub open spec fn label(self) -> Seq<char> {
        match self {
            FieldType::Title => "title"@,
            FieldType::Heading => "heading"@,
            FieldType::Content => "content"@,
        }
    }

    /// The field's name, as index definitions list it.
    pub fn as_str(&self) -> (r: &'static str)
        ensures
            r@ == self.label(),
    {
        match self {
            FieldType::Title => "title",
            FieldType::Heading => "heading",
            FieldType::Content => "content",
        }
    }
}

/// A span of a document's text with its field type.
#[derive(Debug, Clone)]
pub struct FieldBoundary {
    pub doc_id: usize,
    pub start: usize,
    pub end: usize,
    pub field_type: FieldType,
    /// Section anchor for deep links (None for the title)
    pub section_id: Option<String>,
}

/// One suffix of one document: (doc_id, offset).
#[derive(Debug, Clone, Copy, PartialEq, Eq, Structural)]
pub struct SuffixEntry {
    pub doc_id: usize,
    pub offset: usize,
}

/// One suffix of one vocabulary term: (term_idx, byte offset).
#[derive(Debug, Clone, Copy, PartialEq, Eq, Structural)]
pub struct VocabSuffixEntry {
    pub term_idx: usize,
    pub offset: usize,
}

/// A searchable document.
#[derive(Debug, Clone)]
pub struct SearchDoc {
    pub id: usize,
    pub title: String,
    pub excerpt: String,
    pub href: String,
    pub kind: String,
    pub category: Option<String>,
    pub author: Option<String>,
    pub tags: Vec<String>,
}

/// A suffix-array search index over document texts.
#[derive(Debug, Clone)]
pub struct SearchIndex {
    pub docs: Vec<SearchDoc>,
    pub texts: Vec<String>,
    pub suffix_array: Vec<SuffixEntry>,
    pub lcp: Vec<usize>,
    pub field_boundaries: Vec<FieldBoundary>,
    pub version: u32,
}

/// Where in a document a hit landed, best first: a title match outranks a
/// section heading, which outranks deeper headings, which outrank content.
#[derive(Debug, Clone, Copy, PartialEq, Eq, Structural)]
pub enum MatchType {
    Title,
    Section,
    Subsection,
    Subsubsection,
    Content,
}

impl MatchType {
    /// The bucket's place in the ranking, 0 for the best.
    pub open spec fn rank(self) -> nat {
        match self {
            MatchType::Title => 0,
            MatchType::Section => 1,
            MatchType::Subsection => 2,
            MatchType::Subsubsection => 3,
            MatchType::Content => 4,
        }
    }

    /// The bucket as a byte, 0 for the best.
    pub fn to_u8(&self) -> (r: u8)
        ensures
            r == self.rank(),
    {
        match self {
            MatchType::Title => 0,
            MatchType::Section => 1,
            MatchType::Subsection => 2,
            MatchType::Subsubsection => 3,
            MatchType::Content => 4,
        }
    }
}

/// Which indexes a build produces.
#[derive(Debug, Clone, Copy, PartialEq, Eq, Structural)]
pub enum IndexMode {
    /// The suffix array alone
    SuffixArrayOnly,
    /// The inverted index alone
    InvertedIndexOnly,
    /// Both
    Hybrid,
}

} // verus!
