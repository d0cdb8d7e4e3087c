//! Errors reported while decoding the binary formats.

use vstd::prelude::*;

verus! {

/// The broad class of a decoding failure.
#[derive(Debug, Clone, Copy, PartialEq, Eq, Structural)]
pub enum ErrorKind {
    /// The input ended before a complete value could be read.
    UnexpectedEof,
    /// The input is complete but its contents are not acceptable.
    InvalidData,
}

/// A decoding failure, naming the check that rejected the input.
#[derive(Debug, Clone, Copy, PartialEq, Eq, Structural)]
pub enum FormatError {
    EmptyVarint,
    IncompleteVarint,
    VarintTooLong,
    SectionTableTooLarge,
    TruncatedSectionTable,
    SectionIdOverflow,
    TruncatedSectionId,
    InvalidUtf8,
    SuffixArrayTooLarge,
    TruncatedSuffixArrayTermOrds,
    TruncatedSuffixArrayOffset,
    TruncatedSuffixArray,
    TruncatedVocabulary,
    InvalidSharedPrefix,
    TermSuffixOverflow,
    TruncatedTermSuffix,
    TruncatedTerm,
    PostingListTooLarge,
    TruncatedPostingEntry,
    TruncatedHeadingLevel,
    ScoreOutOfRange,
    TruncatedPostings,
    TruncatedPostingBlocks,
    TruncatedPostingTail,
    TruncatedSectionIndex,
    TruncatedPforBlock,
    InvalidBitsPerValue,
    TruncatedPforData,
    EmptySkipList,
    TooManySkipLevels,
    TruncatedSkipLevel,
    TruncatedSkipEntry,
    TruncatedSkipOffset,
    TruncatedSkipListTerm,
    InvalidMagic,
    TruncatedHeader,
    FooterTooShort,
    InvalidFooterMagic,
    FileTooLarge,
    FileTooSmall,
    CrcMismatch,
    UnsupportedVersion,
    TooManyDocuments,
    TooManyTerms,
    SectionLengthMismatch,
    SectionTruncated,
    SectionLengthOverflow,
    TermCountMismatch,
    TruncatedDocs,
    MissingDocsVersion,
    UnsupportedDocsVersion,
    MissingSectionIdFlag,
    PforValueOverflow,
    DocIdOverflow,
    MissingPostingTail,
    HeaderNotLoaded,
    VocabularyNotLoaded,
    SuffixArrayNotLoaded,
    PostingsNotLoaded,
    SectionTableNotLoaded,
    SkipListsNotLoaded,
    LevDfaNotLoaded,
    DocsNotLoaded,
    DictTablesNotLoaded,
}

impl FormatError {
    /// The class of this failure.
    pub open spec fn spec_kind(self) -> ErrorKind {
        match self {
            FormatError::EmptyVarint => ErrorKind::UnexpectedEof,
            FormatError::IncompleteVarint => ErrorKind::UnexpectedEof,
            FormatError::TruncatedSectionTable => ErrorKind::UnexpectedEof,
            FormatError::TruncatedSectionId => ErrorKind::UnexpectedEof,
            FormatError::TruncatedSuffixArrayTermOrds => ErrorKind::UnexpectedEof,
            FormatError::TruncatedSuffixArrayOffset => ErrorKind::UnexpectedEof,
            FormatError::TruncatedSuffixArray => ErrorKind::UnexpectedEof,
            FormatError::TruncatedVocabulary => ErrorKind::UnexpectedEof,
            FormatError::TruncatedTermSuffix => ErrorKind::UnexpectedEof,
            FormatError::TruncatedTerm => ErrorKind::UnexpectedEof,
            FormatError::TruncatedPostingEntry => ErrorKind::UnexpectedEof,
            FormatError::TruncatedHeadingLevel => ErrorKind::UnexpectedEof,
            FormatError::TruncatedPostings => ErrorKind::UnexpectedEof,
            FormatError::TruncatedPostingBlocks => ErrorKind::UnexpectedEof,
            FormatError::TruncatedPostingTail => ErrorKind::UnexpectedEof,
            FormatError::TruncatedSectionIndex => ErrorKind::UnexpectedEof,
            FormatError::TruncatedPforBlock => ErrorKind::UnexpectedEof,
            FormatError::TruncatedPforData => ErrorKind::UnexpectedEof,
            FormatError::EmptySkipList => ErrorKind::UnexpectedEof,
            FormatError::TruncatedSkipLevel => ErrorKind::UnexpectedEof,
            FormatError::TruncatedSkipEntry => ErrorKind::UnexpectedEof,
            FormatError::TruncatedSkipOffset => ErrorKind::UnexpectedEof,
            FormatError::TruncatedSkipListTerm => ErrorKind::UnexpectedEof,
            FormatError::TruncatedHeader => ErrorKind::UnexpectedEof,
            FormatError::FooterTooShort => ErrorKind::UnexpectedEof,
            FormatError::FileTooSmall => ErrorKind::UnexpectedEof,
            FormatError::SectionTruncated => ErrorKind::UnexpectedEof,
            FormatError::TruncatedDocs => ErrorKind::UnexpectedEof,
            FormatError::MissingDocsVersion => ErrorKind::UnexpectedEof,
            FormatError::MissingSectionIdFlag => ErrorKind::UnexpectedEof,
            FormatError::MissingPostingTail => ErrorKind::UnexpectedEof,
            _ => ErrorKind::InvalidData,
        }
    }

    /// The class of this failure.
    pub fn kind(&self) -> (k: ErrorKind)
        ensures
            k == self.spec_kind(),
    {
        match self {
            FormatError::EmptyVarint => ErrorKind::UnexpectedEof,
            FormatError::IncompleteVarint => ErrorKind::UnexpectedEof,
            FormatError::TruncatedSectionTable => ErrorKind::UnexpectedEof,
            FormatError::TruncatedSectionId => ErrorKind::UnexpectedEof,
            FormatError::TruncatedSuffixArrayTermOrds => ErrorKind::UnexpectedEof,
            FormatError::TruncatedSuffixArrayOffset => ErrorKind::UnexpectedEof,
            FormatError::TruncatedSuffixArray => ErrorKind::UnexpectedEof,
            FormatError::TruncatedVocabulary => ErrorKind::UnexpectedEof,
            FormatError::TruncatedTermSuffix => ErrorKind::UnexpectedEof,
            FormatError::TruncatedTerm => ErrorKind::UnexpectedEof,
            FormatError::TruncatedPostingEntry => ErrorKind::UnexpectedEof,
            FormatError::TruncatedHeadingLevel => ErrorKind::UnexpectedEof,
            FormatError::TruncatedPostings => ErrorKind::UnexpectedEof,
            FormatError::TruncatedPostingBlocks => ErrorKind::UnexpectedEof,
            FormatError::TruncatedPostingTail => ErrorKind::UnexpectedEof,
            FormatError::TruncatedSectionIndex => ErrorKind::UnexpectedEof,
            FormatError::TruncatedPforBlock => ErrorKind::UnexpectedEof,
            FormatError::TruncatedPforData => ErrorKind::UnexpectedEof,
            FormatError::EmptySkipList => ErrorKind::UnexpectedEof,
            FormatError::TruncatedSkipLevel => ErrorKind::UnexpectedEof,
            FormatError::TruncatedSkipEntry => ErrorKind::UnexpectedEof,
            FormatError::TruncatedSkipOffset => ErrorKind::UnexpectedEof,
            FormatError::TruncatedSkipListTerm => ErrorKind::UnexpectedEof,
            FormatError::TruncatedHeader => ErrorKind::UnexpectedEof,
            FormatError::FooterTooShort => ErrorKind::UnexpectedEof,
            FormatError::FileTooSmall => ErrorKind::UnexpectedEof,
            FormatError::SectionTruncated => ErrorKind::UnexpectedEof,
            FormatError::TruncatedDocs => ErrorKind::UnexpectedEof,
            FormatError::MissingDocsVersion => ErrorKind::UnexpectedEof,
            FormatError::MissingSectionIdFlag => ErrorKind::UnexpectedEof,
            FormatError::MissingPostingTail => ErrorKind::UnexpectedEof,
            _ => ErrorKind::InvalidData,
        }
    }

    /// The description `message` gives for each failure.
    pub open spec fn spec_message(self) -> Seq<char> {
        match self {
            FormatError::EmptyVarint => "Empty buffer for varint"@,
            FormatError::IncompleteVarint => "Incomplete varint"@,
            FormatError::VarintTooLong => "Varint exceeds maximum length (possible corruption)"@,
            FormatError::SectionTableTooLarge => "Section table count exceeds available bytes"@,
            FormatError::TruncatedSectionTable => "Truncated section table"@,
            FormatError::SectionIdOverflow => "Section ID length causes overflow"@,
            FormatError::TruncatedSectionId => "Truncated section ID"@,
            FormatError::InvalidUtf8 => "Invalid UTF-8"@,
            FormatError::SuffixArrayTooLarge => "Suffix array too large"@,
            FormatError::TruncatedSuffixArrayTermOrds => "Truncated suffix array term_ords"@,
            FormatError::TruncatedSuffixArrayOffset => "Truncated suffix array offset"@,
            FormatError::TruncatedSuffixArray => "Truncated suffix array"@,
            FormatError::TruncatedVocabulary => "Truncated vocabulary"@,
            FormatError::InvalidSharedPrefix => "Invalid shared prefix length"@,
            FormatError::TermSuffixOverflow => "Term suffix length causes overflow"@,
            FormatError::TruncatedTermSuffix => "Truncated term suffix"@,
            FormatError::TruncatedTerm => "Truncated term"@,
            FormatError::PostingListTooLarge => "Posting list too large"@,
            FormatError::TruncatedPostingEntry => "Truncated posting entry"@,
            FormatError::TruncatedHeadingLevel => "Truncated heading_level"@,
            FormatError::ScoreOutOfRange => "Posting score out of range"@,
            FormatError::TruncatedPostings => "Truncated postings"@,
            FormatError::TruncatedPostingBlocks => "Truncated postings blocks"@,
            FormatError::TruncatedPostingTail => "Truncated postings tail values"@,
            FormatError::TruncatedSectionIndex => "Truncated section_id index"@,
            FormatError::TruncatedPforBlock => "Truncated PFOR block"@,
            FormatError::InvalidBitsPerValue => "Invalid bits_per_value (max 32)"@,
            FormatError::TruncatedPforData => "Truncated PFOR packed data"@,
            FormatError::EmptySkipList => "Empty skip list data"@,
            FormatError::TooManySkipLevels => "Too many skip levels"@,
            FormatError::TruncatedSkipLevel => "Truncated skip list level"@,
            FormatError::TruncatedSkipEntry => "Truncated skip list entry"@,
            FormatError::TruncatedSkipOffset => "Truncated skip list block offset"@,
            FormatError::TruncatedSkipListTerm => "Truncated skip list for term"@,
            FormatError::InvalidMagic => "Invalid magic"@,
            FormatError::TruncatedHeader => "Truncated header"@,
            FormatError::FooterTooShort => "File too short for footer"@,
            FormatError::InvalidFooterMagic => "Invalid footer magic"@,
            FormatError::FileTooLarge => "File too large"@,
            FormatError::FileTooSmall => "File too small"@,
            FormatError::CrcMismatch => "CRC32 mismatch (file corrupted)"@,
            FormatError::UnsupportedVersion => "Unsupported version"@,
            FormatError::TooManyDocuments => "Too many documents"@,
            FormatError::TooManyTerms => "Too many terms"@,
            FormatError::SectionLengthMismatch => "Section lengths mismatch"@,
            FormatError::SectionTruncated => "Section truncated"@,
            FormatError::SectionLengthOverflow => "Section length overflow"@,
            FormatError::TermCountMismatch => "Term count mismatch"@,
            FormatError::TruncatedDocs => "Truncated docs section"@,
            FormatError::MissingDocsVersion => "Truncated docs section: missing version byte"@,
            FormatError::UnsupportedDocsVersion => "Unsupported docs version"@,
            FormatError::MissingSectionIdFlag => "Truncated docs section: missing section_id flag"@,
            FormatError::PforValueOverflow => "PFOR value exceeds u32 range"@,
            FormatError::DocIdOverflow => "Posting doc_id exceeds u32 range"@,
            FormatError::MissingPostingTail => "Truncated postings tail"@,
            FormatError::HeaderNotLoaded => "Header not loaded"@,
            FormatError::VocabularyNotLoaded => "Vocabulary not loaded"@,
            FormatError::SuffixArrayNotLoaded => "Suffix array not loaded"@,
            FormatError::PostingsNotLoaded => "Postings not loaded"@,
            FormatError::SectionTableNotLoaded => "Section table not loaded"@,
            FormatError::SkipListsNotLoaded => "Skip lists not loaded"@,
            FormatError::LevDfaNotLoaded => "Levenshtein DFA not loaded"@,
            FormatError::DocsNotLoaded => "Docs not loaded"@,
            FormatError::DictTablesNotLoaded => "Dict tables not loaded"@,
        }
    }

    /// A human-readable description of this failure.
    pub fn message(&self) -> (r: String)
        ensures
            r@ == self.spec_message(),
    {
        let text: &str = match self {
            FormatError::EmptyVarint => "Empty buffer for varint",
            FormatError::IncompleteVarint => "Incomplete varint",
            FormatError::VarintTooLong => "Varint exceeds maximum length (possible corruption)",
            FormatError::SectionTableTooLarge => "Section table count exceeds available bytes",
            FormatError::TruncatedSectionTable => "Truncated section table",
            FormatError::SectionIdOverflow => "Section ID length causes overflow",
            FormatError::TruncatedSectionId => "Truncated section ID",
            FormatError::InvalidUtf8 => "Invalid UTF-8",
            FormatError::SuffixArrayTooLarge => "Suffix array too large",
            FormatError::TruncatedSuffixArrayTermOrds => "Truncated suffix array term_ords",
            FormatError::TruncatedSuffixArrayOffset => "Truncated suffix array offset",
            FormatError::TruncatedSuffixArray => "Truncated suffix array",
            FormatError::TruncatedVocabulary => "Truncated vocabulary",
            FormatError::InvalidSharedPrefix => "Invalid shared prefix length",
            FormatError::TermSuffixOverflow => "Term suffix length causes overflow",
            FormatError::TruncatedTermSuffix => "Truncated term suffix",
            FormatError::TruncatedTerm => "Truncated term",
            FormatError::PostingListTooLarge => "Posting list too large",
            FormatError::TruncatedPostingEntry => "Truncated posting entry",
            FormatError::TruncatedHeadingLevel => "Truncated heading_level",
            FormatError::ScoreOutOfRange => "Posting score out of range",
            FormatError::TruncatedPostings => "Truncated postings",
            FormatError::TruncatedPostingBlocks => "Truncated postings blocks",
            FormatError::TruncatedPostingTail => "Truncated postings tail values",
            FormatError::TruncatedSectionIndex => "Truncated section_id index",
            FormatError::TruncatedPforBlock => "Truncated PFOR block",
            FormatError::InvalidBitsPerValue => "Invalid bits_per_value (max 32)",
            FormatError::TruncatedPforData => "Truncated PFOR packed data",
            FormatError::EmptySkipList => "Empty skip list data",
            FormatError::TooManySkipLevels => "Too many skip levels",
            FormatError::TruncatedSkipLevel => "Truncated skip list level",
            FormatError::TruncatedSkipEntry => "Truncated skip list entry",
            FormatError::TruncatedSkipOffset => "Truncated skip list block offset",
            FormatError::TruncatedSkipListTerm => "Truncated skip list for term",
            FormatError::InvalidMagic => "Invalid magic",
            FormatError::TruncatedHeader => "Truncated header",
            FormatError::FooterTooShort => "File too short for footer",
            FormatError::InvalidFooterMagic => "Invalid footer magic",
            FormatError::FileTooLarge => "File too large",
            FormatError::FileTooSmall => "File too small",
            FormatError::CrcMismatch => "CRC32 mismatch (file corrupted)",
            FormatError::UnsupportedVersion => "Unsupported version",
            FormatError::TooManyDocuments => "Too many documents",
            FormatError::TooManyTerms => "Too many terms",
            FormatError::SectionLengthMismatch => "Section lengths mismatch",
            FormatError::SectionTruncated => "Section truncated",
            FormatError::SectionLengthOverflow => "Section length overflow",
            FormatError::TermCountMismatch => "Term count mismatch",
            FormatError::TruncatedDocs => "Truncated docs section",
            FormatError::MissingDocsVersion => "Truncated docs section: missing version byte",
            FormatError::UnsupportedDocsVersion => "Unsupported docs version",
            FormatError::MissingSectionIdFlag => "Truncated docs section: missing section_id flag",
            FormatError::PforValueOverflow => "PFOR value exceeds u32 range",
            FormatError::DocIdOverflow => "Posting doc_id exceeds u32 range",
            FormatError::MissingPostingTail => "Truncated postings tail",
            FormatError::HeaderNotLoaded => "Header not loaded",
            FormatError::VocabularyNotLoaded => "Vocabulary not loaded",
            FormatError::SuffixArrayNotLoaded => "Suffix array not loaded",
            FormatError::PostingsNotLoaded => "Postings not loaded",
            FormatError::SectionTableNotLoaded => "Section table not loaded",
            FormatError::SkipListsNotLoaded => "Skip lists not loaded",
            FormatError::LevDfaNotLoaded => "Levenshtein DFA not loaded",
            FormatError::DocsNotLoaded => "Docs not loaded",
            FormatError::DictTablesNotLoaded => "Dict tables not loaded",
        };
        String::from_str(text)
    }
}

} // verus!
