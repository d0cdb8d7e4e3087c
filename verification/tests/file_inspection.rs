use sorex::binary::header::FOOTER_SIZE;
use sorex::binary::{encode_docs_binary, BinaryLayer, FormatFlags, SorexHeader, VERSION};
use sorex::error::FormatError;
use sorex::inspect::{
    inspect_bytes, read_inspect_header, section_breakdown, RawSizes, LEGACY_HEADER_SIZE,
};
use sorex::levenshtein_dfa::ParametricDFA;

fn layer_bytes() -> Vec<u8> {
    let vocabulary = vec!["alpha".to_string(), "beta".to_string()];
    let suffix_array = vec![(0, 0), (1, 0)];
    let postings = vec![vec![0, 1, 2], vec![1]];
    let lev = ParametricDFA::build(true).to_bytes();
    let docs_bytes = encode_docs_binary(&[]);
    let layer = BinaryLayer::build(&vocabulary, &suffix_array, &postings, 3, lev, docs_bytes).unwrap();
    layer.to_bytes().unwrap()
}

fn header(version: u8) -> SorexHeader {
    SorexHeader {
        version,
        flags: FormatFlags::new(),
        doc_count: 3,
        term_count: 2,
        vocab_len: 10,
        sa_len: 20,
        postings_len: 30,
        skip_len: 0,
        section_table_len: 5,
        lev_dfa_len: 600,
        docs_len: 40,
        wasm_len: 0,
        dict_table_len: 7,
    }
}

#[test]
fn inspection_of_a_built_file() {
    let bytes = layer_bytes();
    let report = inspect_bytes(&bytes).unwrap();
    assert_eq!(report.header.version, VERSION);
    assert!(report.crc_valid);
    let compressed = report.compressed_size.unwrap();
    assert!(compressed > 0 && compressed < bytes.len());
    let layer = report.layer.as_ref().unwrap();
    assert_eq!(layer.vocabulary, vec!["alpha".to_string(), "beta".to_string()]);
    assert_eq!(report.raw.vocabulary, 9);
    assert_eq!(report.raw.suffix_array, 16);
    assert_eq!(report.raw.postings, 36);
    assert_eq!(report.raw.section_table, 0);
    let names: Vec<&str> = report.sections.iter().map(|s| s.name.as_str()).collect();
    assert_eq!(names.first(), Some(&"HEADER"));
    assert_eq!(names.last(), Some(&"FOOTER"));
    let total: usize = report.sections.iter().map(|s| s.size).sum();
    assert_eq!(total, bytes.len());
}

#[test]
fn inspection_reports_a_bad_checksum() {
    let mut bytes = layer_bytes();
    let at = bytes.len() - FOOTER_SIZE - 1;
    bytes[at] ^= 0xFF;
    let report = inspect_bytes(&bytes).unwrap();
    assert!(!report.crc_valid);
    assert!(report.layer.is_none());
    assert_eq!(report.raw, RawSizes { vocabulary: 0, suffix_array: 0, postings: 0, section_table: 0, docs: 0 });
}

#[test]
fn inspection_refuses_a_short_file() {
    assert_eq!(inspect_bytes(&[0u8; 43]).err(), Some(FormatError::FileTooSmall));
}

#[test]
fn legacy_header_is_read_from_36_bytes() {
    let mut bytes = vec![0x53, 0x4F, 0x52, 0x58, 2, 0];
    for v in [7u32, 11, 100, 200, 300, 0, 50] {
        bytes.extend_from_slice(&v.to_le_bytes());
    }
    bytes.resize(44, 0);
    let (h, size) = read_inspect_header(&bytes).unwrap();
    assert_eq!(size, LEGACY_HEADER_SIZE);
    assert_eq!((h.version, h.doc_count, h.term_count, h.vocab_len), (2, 7, 11, 100));
    assert_eq!((h.sa_len, h.postings_len, h.skip_len, h.section_table_len), (200, 300, 0, 50));
    assert_eq!((h.lev_dfa_len, h.docs_len, h.wasm_len, h.dict_table_len), (0, 0, 0, 0));
    bytes[0] = 0;
    assert_eq!(read_inspect_header(&bytes).err(), Some(FormatError::InvalidMagic));
}

#[test]
fn breakdown_follows_the_version() {
    let raw = RawSizes { vocabulary: 1, suffix_array: 2, postings: 3, section_table: 4, docs: 5 };
    let names = |v: u8| -> Vec<String> {
        section_breakdown(&header(v), &raw).into_iter().map(|s| s.name).collect()
    };
    assert_eq!(
        names(12),
        vec!["HEADER", "VOCABULARY", "DICT TABLES", "POSTINGS", "SUFFIX ARRAY", "DOCS", "SECTION TABLE", "SKIP LISTS", "LEV DFA", "FOOTER"]
    );
    assert_eq!(names(2), vec!["HEADER", "VOCABULARY", "POSTINGS", "SUFFIX ARRAY", "SECTION TABLE", "SKIP LISTS", "FOOTER"]);
    let rows = section_breakdown(&header(12), &raw);
    assert_eq!((rows[0].size, rows[0].raw_size), (52, 52));
    assert_eq!((rows[1].size, rows[1].raw_size, rows[1].technique.as_str()), (10, 1, "FC"));
    assert_eq!(section_breakdown(&header(2), &raw)[0].size, 36);
}
