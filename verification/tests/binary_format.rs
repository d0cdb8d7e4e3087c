use sorex::binary::header::{HEADER_SIZE, FOOTER_SIZE};
use sorex::binary::{
    decode_postings, decode_suffix_array, decode_varint, encode_docs_binary, encode_postings,
    encode_suffix_array, encode_varint, BinaryLayer, DocMetaInput, FormatFlags, LoadedLayer,
    PostingEntry, SkipList, SorexFooter, SorexHeader, BLOCK_SIZE, FOOTER_MAGIC, VERSION,
};
use sorex::levenshtein_dfa::ParametricDFA;

fn build_lev_dfa_bytes() -> Vec<u8> {
    ParametricDFA::build(true).to_bytes()
}

fn entry(doc_id: u32, section_idx: u32, heading_level: u8) -> PostingEntry {
    PostingEntry { doc_id, section_idx, heading_level, score: 0 }
}

#[test]
fn mod_test_varint_roundtrip() {
    let values = [0, 1, 127, 128, 255, 256, 16383, 16384, u64::MAX];
    for &val in &values {
        let mut buf = Vec::new();
        encode_varint(val, &mut buf);
        let (decoded, len) = decode_varint(&buf).unwrap();
        assert_eq!(decoded, val);
        assert_eq!(len, buf.len());
    }
}

#[test]
fn mod_test_varint_error_on_empty() {
    let result = decode_varint(&[]);
    assert!(result.is_err());
}

#[test]
fn mod_test_varint_error_on_overflow() {
    let malformed = [0xFF; 15];
    let result = decode_varint(&malformed);
    assert!(result.is_err());
}

#[test]
fn mod_test_postings_roundtrip() {
    let entries: Vec<PostingEntry> = (0..500)
        .map(|i| entry(i * 3, if i % 10 == 0 { i / 10 } else { 0 }, (i % 6) as u8))
        .collect();

    let mut buf = Vec::new();
    encode_postings(&entries, &mut buf);
    let (decoded, _) = decode_postings(&buf).unwrap();

    assert_eq!(decoded.len(), entries.len());
    for (orig, dec) in entries.iter().zip(decoded.iter()) {
        assert_eq!(orig.doc_id, dec.doc_id);
        assert_eq!(orig.section_idx, dec.section_idx);
        assert_eq!(orig.heading_level, dec.heading_level);
    }
}

#[test]
fn mod_test_suffix_array_roundtrip() {
    let entries: Vec<(u32, u32)> = vec![(0, 5), (0, 3), (1, 0), (2, 2), (5, 1)];
    let mut buf = Vec::new();
    encode_suffix_array(&entries, &mut buf);
    let (decoded, _) = decode_suffix_array(&buf).unwrap();
    assert_eq!(decoded, entries);
}

#[test]
fn mod_test_skip_list_build() {
    let doc_ids: Vec<u32> = (0..2000).collect();
    let skip_list = SkipList::build(&doc_ids).expect("Should build skip list");
    assert!(!skip_list.levels.is_empty());
    let block = skip_list.skip_to(1500).expect("Should find block");
    assert!(block * BLOCK_SIZE as u32 <= 1500);
}

fn about_and_post_docs() -> Vec<DocMetaInput> {
    vec![
        DocMetaInput {
            title: "About Harry".to_string(),
            excerpt: "I'm a performance engineer...".to_string(),
            href: "/about".to_string(),
            doc_type: "page".to_string(),
            section_id: None,
            category: None,
            author: None,
            tags: vec![],
        },
        DocMetaInput {
            title: "Test Post".to_string(),
            excerpt: "A test post excerpt".to_string(),
            href: "/posts/2024/01/test".to_string(),
            doc_type: "post".to_string(),
            section_id: Some("introduction".to_string()),
            category: Some("engineering".to_string()),
            author: None,
            tags: vec![],
        },
    ]
}

fn check_layer_roundtrip() {
    let vocabulary = vec!["apple".to_string(), "banana".to_string(), "cherry".to_string()];
    let suffix_array = vec![(0, 0), (1, 0), (2, 0)];
    let postings = vec![vec![0, 5, 10], vec![1, 2, 3, 4], vec![0, 1, 2]];
    let lev_dfa_bytes = build_lev_dfa_bytes();
    let docs_bytes = encode_docs_binary(&about_and_post_docs());

    let layer = BinaryLayer::build(&vocabulary, &suffix_array, &postings, 20, lev_dfa_bytes, docs_bytes).unwrap();
    let bytes = layer.to_bytes().unwrap();
    let loaded = LoadedLayer::from_bytes(&bytes).unwrap();

    assert_eq!(loaded.doc_count, 20);
    assert_eq!(loaded.postings.len(), 3);
    assert_eq!(loaded.get_doc_ids("apple"), Some(vec![0, 5, 10]));
    assert_eq!(loaded.get_doc_ids("banana"), Some(vec![1, 2, 3, 4]));
    assert_eq!(loaded.get_doc_ids("cherry"), Some(vec![0, 1, 2]));
    assert_eq!(loaded.get_doc_ids("nonexistent"), None);
    assert!(!loaded.lev_dfa_bytes.is_empty(), "Levenshtein DFA bytes should be loaded");

    assert_eq!(loaded.docs.len(), 2);
    assert_eq!(loaded.docs[0].title, "About Harry");
    assert_eq!(loaded.docs[0].excerpt, "I'm a performance engineer...");
    assert_eq!(loaded.docs[0].href, "/about");
    assert_eq!(loaded.docs[0].doc_type, "page");
    assert_eq!(loaded.docs[1].title, "Test Post");
    assert_eq!(loaded.docs[1].doc_type, "post");
}

#[test]
fn mod_test_binary_layer_roundtrip() {
    check_layer_roundtrip();
}

#[test]
fn binary_test_binary_layer_roundtrip() {
    check_layer_roundtrip();
}

fn check_section_table_roundtrip() {
    let vocabulary = vec!["test".to_string()];
    let suffix_array = vec![(0, 0), (0, 1), (0, 2)];
    let section_table = vec!["introduction".to_string(), "conclusion".to_string()];
    let postings = vec![vec![entry(0, 0, 0), entry(1, 1, 1), entry(2, 2, 2)]];
    let lev_dfa_bytes = build_lev_dfa_bytes();
    let docs_bytes = encode_docs_binary(&[]);

    let layer = BinaryLayer::build_v6(&vocabulary, &suffix_array, &postings, &section_table, 3, lev_dfa_bytes, docs_bytes).unwrap();
    let bytes = layer.to_bytes().unwrap();
    let loaded = LoadedLayer::from_bytes(&bytes).unwrap();

    assert_eq!(loaded.section_table.len(), 2);
    assert_eq!(loaded.section_table[0], "introduction");
    assert_eq!(loaded.section_table[1], "conclusion");

    let entries = loaded.get_postings("test").unwrap();
    assert_eq!(entries.len(), 3);
    assert_eq!(entries[0].doc_id, 0);
    assert_eq!(entries[0].section_idx, 0);
    assert_eq!(entries[1].doc_id, 1);
    assert_eq!(entries[1].section_idx, 1);
    assert_eq!(entries[2].doc_id, 2);
    assert_eq!(entries[2].section_idx, 2);

    assert_eq!(loaded.resolve_section_id(0), None);
    assert_eq!(loaded.resolve_section_id(1), Some("introduction"));
    assert_eq!(loaded.resolve_section_id(2), Some("conclusion"));
}

#[test]
fn mod_test_v6_section_table_roundtrip() {
    check_section_table_roundtrip();
}

#[test]
fn binary_test_v6_section_table_roundtrip() {
    check_section_table_roundtrip();
}

#[test]
fn mod_test_header_roundtrip() {
    let header = SorexHeader {
        version: VERSION,
        flags: FormatFlags::new().with_skip_lists(),
        doc_count: 1000,
        term_count: 500,
        vocab_len: 2048,
        sa_len: 4096,
        postings_len: 8192,
        skip_len: 512,
        section_table_len: 256,
        lev_dfa_len: 1200,
        docs_len: 5000,
        wasm_len: 50000,
        dict_table_len: 1024,
    };

    let mut buf = Vec::new();
    header.write(&mut buf);
    assert_eq!(buf.len(), HEADER_SIZE);

    let decoded = SorexHeader::read(&buf).unwrap();
    assert_eq!(decoded.version, header.version);
    assert_eq!(decoded.doc_count, header.doc_count);
    assert_eq!(decoded.term_count, header.term_count);
    assert_eq!(decoded.section_table_len, header.section_table_len);
    assert_eq!(decoded.lev_dfa_len, header.lev_dfa_len);
    assert_eq!(decoded.docs_len, header.docs_len);
    assert_eq!(decoded.wasm_len, header.wasm_len);
    assert_eq!(decoded.dict_table_len, header.dict_table_len);
    assert!(decoded.flags.has_skip_lists());
}

fn small_layer_bytes() -> Vec<u8> {
    let vocabulary = vec!["test".to_string()];
    let suffix_array = vec![(0, 0)];
    let postings = vec![vec![0, 1, 2]];
    let lev_dfa_bytes = build_lev_dfa_bytes();
    let docs_bytes = encode_docs_binary(&[]);
    let layer = BinaryLayer::build(&vocabulary, &suffix_array, &postings, 10, lev_dfa_bytes, docs_bytes).unwrap();
    layer.to_bytes().unwrap()
}

fn check_crc32_detects_corruption() {
    let mut bytes = small_layer_bytes();
    let corruption_idx = HEADER_SIZE + 5;
    bytes[corruption_idx] ^= 0xFF;
    let result = LoadedLayer::from_bytes(&bytes);
    assert!(result.is_err());
    let err = result.unwrap_err();
    assert!(err.message().contains("CRC32 mismatch"));
}

#[test]
fn mod_test_crc32_detects_corruption() {
    check_crc32_detects_corruption();
}

#[test]
fn binary_test_crc32_detects_corruption() {
    check_crc32_detects_corruption();
}

fn check_truncation_detected() {
    let bytes = small_layer_bytes();
    let truncated = &bytes[..bytes.len() - 10];
    let result = LoadedLayer::from_bytes(truncated);
    assert!(result.is_err());
}

#[test]
fn mod_test_truncation_detected() {
    check_truncation_detected();
}

#[test]
fn binary_test_truncation_detected() {
    check_truncation_detected();
}

fn check_invalid_magic_rejected() {
    let mut bytes = vec![0u8; HEADER_SIZE + FOOTER_SIZE];
    bytes[0..4].copy_from_slice(b"NOPE");
    let footer_start = bytes.len() - 4;
    bytes[footer_start..].copy_from_slice(&FOOTER_MAGIC);

    let result = BinaryLayer::from_bytes(&bytes);
    assert!(result.is_err());
    let err = result.unwrap_err();
    let text = err.message();
    assert!(
        text.contains("CRC32") || text.contains("Invalid magic") || text.contains("mismatch"),
        "Expected CRC32 or magic error, got: {}",
        text
    );
}

#[test]
fn mod_test_invalid_magic_rejected() {
    check_invalid_magic_rejected();
}

#[test]
fn mod_test_footer_magic_validated() {
    let small = vec![0u8; 4];
    let result = SorexFooter::read(&small);
    assert!(result.is_err());
}

#[test]
fn mod_test_footer_roundtrip() {
    let data = b"Hello, world!";
    let crc32 = SorexFooter::compute_crc32(data);
    let footer = SorexFooter { crc32 };
    let mut buf = Vec::new();
    footer.write(&mut buf);
    assert_eq!(buf.len(), FOOTER_SIZE);
    let mut full = data.to_vec();
    full.extend_from_slice(&buf);
    let parsed = SorexFooter::read(&full).unwrap();
    assert_eq!(parsed.crc32, crc32);
}

fn check_wasm_embedding() {
    let vocabulary = vec!["test".to_string()];
    let suffix_array = vec![(0, 0)];
    let postings = vec![vec![entry(0, 0, 0)]];
    let lev_dfa_bytes = build_lev_dfa_bytes();
    let docs_bytes = encode_docs_binary(&[]);
    let wasm_bytes = vec![0x00, 0x61, 0x73, 0x6d, 0x01, 0x00, 0x00, 0x00];

    let layer = BinaryLayer::build_v7(&vocabulary, &suffix_array, &postings, &[], 1, lev_dfa_bytes, docs_bytes, wasm_bytes.clone()).unwrap();
    let bytes = layer.to_bytes().unwrap();

    let header = SorexHeader::read(&bytes).unwrap();
    assert_eq!(header.version, VERSION);
    assert_eq!(header.wasm_len, 8);

    let loaded = LoadedLayer::from_bytes(&bytes).unwrap();
    assert_eq!(loaded.wasm_bytes, wasm_bytes);
}

#[test]
fn mod_test_v7_wasm_embedding() {
    check_wasm_embedding();
}

#[test]
fn binary_test_v7_wasm_embedding() {
    check_wasm_embedding();
}

fn check_wasm_offset_calculation() {
    let vocabulary = vec!["apple".to_string(), "banana".to_string()];
    let suffix_array = vec![(0, 0), (1, 0)];
    let postings = vec![vec![entry(0, 0, 0), entry(1, 0, 0)], vec![entry(1, 0, 0), entry(2, 0, 0)]];
    let lev_dfa_bytes = build_lev_dfa_bytes();
    let docs = vec![DocMetaInput {
        title: "Test".to_string(),
        excerpt: "Test excerpt".to_string(),
        href: "/test".to_string(),
        doc_type: "page".to_string(),
        section_id: None,
        category: None,
        author: None,
        tags: vec![],
    }];
    let docs_bytes = encode_docs_binary(&docs);
    let wasm_bytes: Vec<u8> = (0..100).map(|i| (i * 7) as u8).collect();

    let layer = BinaryLayer::build_v7(&vocabulary, &suffix_array, &postings, &[], 3, lev_dfa_bytes, docs_bytes, wasm_bytes.clone()).unwrap();
    let bytes = layer.to_bytes().unwrap();
    let header = SorexHeader::read(&bytes).unwrap();
    let offsets = header.section_offsets();
    let extracted_wasm = &bytes[offsets.wasm.0..offsets.wasm.1];
    assert_eq!(extracted_wasm, &wasm_bytes[..]);
}

#[test]
fn mod_test_v7_wasm_offset_calculation() {
    check_wasm_offset_calculation();
}

#[test]
fn binary_test_v7_wasm_offset_calculation() {
    check_wasm_offset_calculation();
}

#[test]
fn mod_test_empty_dict_tables_roundtrip() {
    let vocabulary = vec!["test".to_string()];
    let suffix_array = vec![(0, 0)];
    let postings = vec![vec![entry(0, 0, 0)]];
    let lev_dfa_bytes = build_lev_dfa_bytes();
    let docs = vec![DocMetaInput {
        title: "Test".to_string(),
        excerpt: "Test".to_string(),
        href: "/test".to_string(),
        doc_type: "page".to_string(),
        section_id: None,
        category: None,
        author: None,
        tags: vec![],
    }];
    let docs_bytes = encode_docs_binary(&docs);
    let layer = BinaryLayer::build_v6(&vocabulary, &suffix_array, &postings, &[], 1, lev_dfa_bytes, docs_bytes).unwrap();
    let bytes = layer.to_bytes().unwrap();
    let loaded = LoadedLayer::from_bytes(&bytes).unwrap();
    assert!(loaded.dict_table_bytes.is_empty());
    assert_eq!(loaded.dict_table_bytes.len(), 0);
}

#[test]
fn binary_test_varint_roundtrip() {
    let values = [0, 1, 127, 128, 255, 256, 16383, 16384, u64::MAX];
    for &val in &values {
        let mut buf = Vec::new();
        encode_varint(val, &mut buf);
        let (decoded, len) = decode_varint(&buf).unwrap();
        assert_eq!(decoded, val);
        assert_eq!(len, buf.len());
    }
}

#[test]
fn binary_test_varint_error_on_empty() {
    let result = decode_varint(&[]);
    assert!(result.is_err());
}

#[test]
fn binary_test_varint_error_on_overflow() {
    let malformed = [0xFF; 15];
    let result = decode_varint(&malformed);
    assert!(result.is_err());
}

#[test]
fn binary_test_suffix_array_roundtrip() {
    let entries: Vec<(u32, u32)> = vec![(0, 5), (0, 3), (1, 0), (2, 2), (5, 1)];
    let mut buf = Vec::new();
    encode_suffix_array(&entries, &mut buf);
    let (decoded, _) = decode_suffix_array(&buf).unwrap();
    assert_eq!(decoded, entries);
}

#[test]
fn binary_test_skip_list_build() {
    let doc_ids: Vec<u32> = (0..2000).collect();
    let skip_list = SkipList::build(&doc_ids).expect("Should build skip list");
    assert!(!skip_list.levels.is_empty());
    let block = skip_list.skip_to(1500).expect("Should find block");
    assert!(block * BLOCK_SIZE as u32 <= 1500);
}

#[test]
fn binary_test_invalid_magic_rejected() {
    check_invalid_magic_rejected();
}

#[test]
fn binary_test_footer_magic_validated() {
    let small = vec![0u8; 4];
    let result = SorexFooter::read(&small);
    assert!(result.is_err());
}

#[test]
fn crc32_matches_the_ieee_check_value() {
    assert_eq!(SorexFooter::compute_crc32(b"123456789"), 0xCBF4_3926);
    assert_eq!(SorexFooter::compute_crc32(b""), 0);
    let samples: [&[u8]; 4] = [b"a", b"sorex", &[0u8, 255, 17, 128], b"The quick brown fox jumps over the lazy dog"];
    for data in samples {
        assert_eq!(SorexFooter::compute_crc32(data), crc32fast::hash(data));
    }
}
