//! Binary format for Sorex search indexes.
//!
//! The v12 file is a 52-byte header, nine sections in decode-dependency
//! order (WASM, vocabulary, dict tables, postings, suffix array, docs,
//! section table, skip lists, Levenshtein DFA) and an 8-byte CRC32 footer.

use vstd::prelude::*;

pub mod docs;
pub mod encoding;
pub mod header;
pub mod incremental;
pub mod layer;
pub mod loaded;
pub mod postings;
pub mod reload;
pub mod sieve;

pub use docs::{decode_docs_binary, encode_docs_binary, DocMeta, DocMetaInput};
pub use encoding::{
    decode_section_table, decode_suffix_array, decode_varint, decode_vocabulary,
    encode_section_table, encode_suffix_array, encode_varint, encode_vocabulary,
    MAX_POSTING_SIZE, MAX_VARINT_BYTES,
};
pub use header::{
    FormatFlags, SectionOffsets, SorexFooter, SorexHeader, BLOCK_SIZE, FOOTER_MAGIC, MAGIC,
    MAX_DOC_COUNT, MAX_FILE_SIZE, MAX_SKIP_LEVELS, MAX_TERM_COUNT, SKIP_INTERVAL,
    SKIP_LIST_THRESHOLD, VERSION,
};
pub use layer::BinaryLayer;
pub use loaded::LoadedLayer;
pub use postings::{decode_postings, encode_postings, PostingEntry, SkipEntry, SkipList};

verus! {

} // verus!
