//! Sorex: full-text search index with a verified binary format.

use vstd::prelude::*;

pub mod error;
pub mod fst_index;
pub mod hybrid;
pub mod index;
pub mod inspect;
pub mod inverted;
pub mod binary;
pub mod builder;
pub mod contracts;
pub mod display;
pub mod docs_compression;
pub mod levenshtein;
pub mod levenshtein_dfa;
pub mod manifest;
pub mod ranking;
pub mod sais;
pub mod scoring;
pub mod search;
pub mod script;
pub mod script_source;
pub mod text;
pub mod types;

verus! {

} // verus!
