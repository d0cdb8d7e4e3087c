use sorex::binary::incremental::IncrementalLoader;
use sorex::binary::{encode_docs_binary, BinaryLayer, DocMetaInput, LoadedLayer, PostingEntry};
use sorex::error::FormatError;
use sorex::levenshtein_dfa::ParametricDFA;

fn build_test_index() -> Vec<u8> {
    let vocabulary = vec!["apple".to_string(), "banana".to_string()];
    let suffix_array = vec![(0, 0), (1, 0)];
    let postings = vec![
        vec![PostingEntry { doc_id: 0, section_idx: 0, heading_level: 0, score: 0 }],
        vec![PostingEntry { doc_id: 1, section_idx: 0, heading_level: 0, score: 0 }],
    ];
    let section_table = vec!["intro".to_string()];
    let lev_dfa_bytes = ParametricDFA::build(true).to_bytes();
    let docs = vec![DocMetaInput {
        title: "Test".to_string(),
        excerpt: "Test excerpt".to_string(),
        href: "/test".to_string(),
        doc_type: "page".to_string(),
        section_id: None,
        category: None,
        author: None,
        tags: vec![],
    }];
    let docs_bytes = encode_docs_binary(&docs);

    let layer = BinaryLayer::build_v6(
        &vocabulary,
        &suffix_array,
        &postings,
        &section_table,
        2,
        lev_dfa_bytes,
        docs_bytes,
    )
    .unwrap();

    layer.to_bytes().unwrap()
}

#[test]
fn test_incremental_loader() {
    let bytes = build_test_index();

    let mut loader = IncrementalLoader::new();

    // Load header
    let offsets = loader.load_header(&bytes).unwrap();

    // Get header info for postings
    let term_count = loader.header().unwrap().term_count;
    let flags = loader.header().unwrap().flags;

    // Load all sections
    loader.load_vocabulary(bytes[offsets.vocabulary.0..offsets.vocabulary.1].to_vec());
    loader.load_dict_tables(bytes[offsets.dict_tables.0..offsets.dict_tables.1].to_vec());
    loader.load_postings(bytes[offsets.postings.0..offsets.postings.1].to_vec(), term_count);
    loader.load_suffix_array(bytes[offsets.suffix_array.0..offsets.suffix_array.1].to_vec());
    loader.load_docs(bytes[offsets.docs.0..offsets.docs.1].to_vec());
    loader.load_section_table(bytes[offsets.section_table.0..offsets.section_table.1].to_vec());
    loader.load_skip_lists(bytes[offsets.skip_lists.0..offsets.skip_lists.1].to_vec(), flags);
    loader.load_lev_dfa(bytes[offsets.lev_dfa.0..offsets.lev_dfa.1].to_vec());

    // Finalize
    let layer = loader.finalize().unwrap();

    assert_eq!(layer.doc_count, 2);
    assert_eq!(layer.vocabulary.len(), 2);
    assert_eq!(layer.vocabulary[0], "apple");
    assert_eq!(layer.vocabulary[1], "banana");
    assert_eq!(layer.section_table.len(), 1);
    assert_eq!(layer.section_table[0], "intro");
}

#[test]
fn incremental_load_equals_whole_file_load() {
    let bytes = build_test_index();
    let whole = LoadedLayer::from_bytes(&bytes).unwrap();

    let mut loader = IncrementalLoader::default();
    let o = loader.load_header(&bytes).unwrap();
    let flags = loader.header().unwrap().flags;
    // Sections may arrive in any order
    loader.load_lev_dfa(bytes[o.lev_dfa.0..o.lev_dfa.1].to_vec());
    loader.load_skip_lists(bytes[o.skip_lists.0..o.skip_lists.1].to_vec(), flags);
    loader.load_docs(bytes[o.docs.0..o.docs.1].to_vec());
    loader.load_postings(bytes[o.postings.0..o.postings.1].to_vec(), 2);
    loader.load_section_table(bytes[o.section_table.0..o.section_table.1].to_vec());
    loader.load_suffix_array(bytes[o.suffix_array.0..o.suffix_array.1].to_vec());
    loader.load_dict_tables(bytes[o.dict_tables.0..o.dict_tables.1].to_vec());
    assert_eq!(loader.pending_count(), 1);
    assert!(!loader.is_complete());
    loader.load_vocabulary(bytes[o.vocabulary.0..o.vocabulary.1].to_vec());
    assert!(loader.is_complete());
    let part = loader.finalize().unwrap();

    assert_eq!(part.doc_count, whole.doc_count);
    assert_eq!(part.vocabulary, whole.vocabulary);
    assert_eq!(part.suffix_array, whole.suffix_array);
    assert_eq!(part.postings, whole.postings);
    assert_eq!(part.section_table, whole.section_table);
    assert_eq!(part.skip_lists.len(), whole.skip_lists.len());
    assert_eq!(part.lev_dfa_bytes, whole.lev_dfa_bytes);
    assert_eq!(part.docs.len(), whole.docs.len());
    assert_eq!(part.docs[0].title, whole.docs[0].title);
    assert_eq!(part.dict_table_bytes, whole.dict_table_bytes);
    assert!(part.wasm_bytes.is_empty());
}

#[test]
fn incremental_header_errors() {
    let bytes = build_test_index();
    let mut loader = IncrementalLoader::new();
    assert_eq!(loader.load_header(&bytes[..51]).unwrap_err(), FormatError::TruncatedHeader);
    let mut bad_magic = bytes.clone();
    bad_magic[0] = b'X';
    assert_eq!(loader.load_header(&bad_magic).unwrap_err(), FormatError::InvalidMagic);
    let mut bad_version = bytes.clone();
    bad_version[4] = 99;
    assert_eq!(loader.load_header(&bad_version).unwrap_err(), FormatError::UnsupportedVersion);
    // A refused header leaves the loader without one
    assert!(loader.header().is_none());
    assert_eq!(loader.pending_count(), 8);
}

#[test]
fn incremental_finalize_reports_first_missing_section() {
    let bytes = build_test_index();
    let mut loader = IncrementalLoader::new();
    let o = loader.load_header(&bytes).unwrap();
    // Eight loads, but the vocabulary twice and the docs never
    for _ in 0..2 {
        loader.load_vocabulary(bytes[o.vocabulary.0..o.vocabulary.1].to_vec());
    }
    loader.load_dict_tables(Vec::new());
    loader.load_postings(bytes[o.postings.0..o.postings.1].to_vec(), 2);
    loader.load_suffix_array(bytes[o.suffix_array.0..o.suffix_array.1].to_vec());
    loader.load_section_table(Vec::new());
    loader.load_skip_lists(Vec::new(), sorex::binary::FormatFlags::new());
    loader.load_lev_dfa(Vec::new());
    assert!(loader.is_complete());
    assert_eq!(loader.finalize().unwrap_err(), FormatError::DocsNotLoaded);

    // Without a header nothing else matters
    let mut empty = IncrementalLoader::new();
    for _ in 0..8 {
        empty.load_lev_dfa(Vec::new());
    }
    assert_eq!(empty.finalize().unwrap_err(), FormatError::HeaderNotLoaded);
}

#[test]
fn incremental_keeps_what_decodes() {
    let bytes = build_test_index();
    let mut loader = IncrementalLoader::new();
    let o = loader.load_header(&bytes).unwrap();
    // A postings section cut short keeps the lists before the cut
    let postings = &bytes[o.postings.0..o.postings.1];
    let mut loader2 = IncrementalLoader::new();
    loader2.load_header(&bytes).unwrap();
    loader2.load_postings(postings[..postings.len() - 1].to_vec(), 2);
    loader2.load_vocabulary(b"garbage".to_vec());
    loader2.load_suffix_array(vec![0xff]);
    loader2.load_docs(vec![0xff]);
    loader2.load_section_table(vec![0xff]);
    loader2.load_skip_lists(Vec::new(), sorex::binary::FormatFlags::new());
    loader2.load_lev_dfa(Vec::new());
    loader2.load_dict_tables(Vec::new());
    // One list decoded, the header wants two
    assert_eq!(loader2.finalize().unwrap_err(), FormatError::TermCountMismatch);

    // Sections that do not decode are kept empty
    loader.load_postings(postings.to_vec(), 2);
    loader.load_vocabulary(b"garbage".to_vec());
    loader.load_suffix_array(vec![0xff]);
    loader.load_docs(vec![0xff]);
    loader.load_section_table(vec![0xff]);
    loader.load_skip_lists(Vec::new(), sorex::binary::FormatFlags::new());
    loader.load_lev_dfa(Vec::new());
    loader.load_dict_tables(Vec::new());
    let layer = loader.finalize().unwrap();
    assert!(layer.vocabulary.is_empty());
    assert!(layer.suffix_array.is_empty());
    assert!(layer.docs.is_empty());
    assert!(layer.section_table.is_empty());
    assert_eq!(layer.postings.len(), 2);
}
