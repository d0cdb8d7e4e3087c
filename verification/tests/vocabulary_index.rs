use sorex::binary::LoadedLayer;
use sorex::fst_index::{assemble_index, build_fst_index, tokenize};
use sorex::levenshtein_dfa::ParametricDFA;
use sorex::types::{FieldBoundary, FieldType, SearchDoc};

fn make_doc(id: usize, title: &str) -> SearchDoc {
    SearchDoc {
        id,
        title: title.to_string(),
        excerpt: String::new(),
        href: format!("/doc/{}", id),
        kind: "post".to_string(),
        category: None,
        author: None,
        tags: vec![],
    }
}

#[test]
fn test_build_fst_index() {
    let docs = vec![make_doc(0, "Rust Guide"), make_doc(1, "Python Guide")];
    let texts = vec![
        "rust programming language".to_string(),
        "python programming language".to_string(),
    ];
    let index = build_fst_index(docs, texts, vec![]);
    assert!(index.vocabulary.contains(&"rust".to_string()));
    assert!(index.vocabulary.contains(&"python".to_string()));
    assert!(index.vocabulary.contains(&"programming".to_string()));
    assert!(index.vocabulary.contains(&"language".to_string()));
    assert!(!index.vocabulary.contains(&"notinvocab".to_string()));
}

#[test]
fn test_vocabulary_is_sorted() {
    let docs = vec![make_doc(0, "Test")];
    let texts = vec!["zebra apple mango banana".to_string()];
    let index = build_fst_index(docs, texts, vec![]);
    let mut sorted = index.vocabulary.clone();
    sorted.sort();
    assert_eq!(index.vocabulary, sorted);
}

#[test]
fn test_deterministic_construction() {
    let docs = vec![make_doc(0, "Test"), make_doc(1, "Other")];
    let texts = vec![
        "rust programming systems".to_string(),
        "python scripting language".to_string(),
    ];
    let index1 = build_fst_index(docs.clone(), texts.clone(), vec![]);
    let index2 = build_fst_index(docs, texts, vec![]);
    assert_eq!(index1.vocabulary, index2.vocabulary);
    assert_eq!(index1.vocab_suffix_array, index2.vocab_suffix_array);
}

#[test]
fn tokenize_splits_lowercases_and_records_byte_offsets() {
    let tokens = tokenize("Hello, wörld! 42x");
    let words: Vec<(&str, usize)> = tokens.iter().map(|(w, o)| (w.as_str(), *o)).collect();
    assert_eq!(words, vec![("hello", 0), ("wörld", 7), ("42x", 15)]);
    assert!(tokenize("  ,,, ").is_empty());
}

#[test]
fn postings_list_each_occurrence_with_its_field() {
    let docs = vec![make_doc(0, "A"), make_doc(1, "B")];
    let texts = vec!["rust code rust".to_string(), "more rust".to_string()];
    let boundaries = vec![FieldBoundary {
        doc_id: 0,
        start: 0,
        end: 4,
        field_type: FieldType::Title,
        section_id: Some("intro".to_string()),
    }];
    let index = build_fst_index(docs, texts, boundaries);
    assert_eq!(index.vocabulary, vec!["code", "more", "rust"]);
    assert_eq!(index.inverted_index.total_docs, 2);
    let (term, list) = &index.inverted_index.terms[2];
    assert_eq!(term, "rust");
    let places: Vec<(usize, usize)> = list.postings.iter().map(|p| (p.doc_id, p.offset)).collect();
    assert_eq!(places, vec![(0, 0), (0, 10), (1, 5)]);
    assert_eq!(list.postings[0].field_type, FieldType::Title);
    assert_eq!(list.postings[0].section_id.as_deref(), Some("intro"));
    assert_eq!(list.postings[1].field_type, FieldType::Content);
    assert_eq!(list.doc_freq, 2);
    assert_eq!(index.inverted_index.terms[0].1.doc_freq, 1);
}

#[test]
fn assembled_index_loads_back() {
    let docs = vec![make_doc(0, "A"), make_doc(1, "B")];
    let texts = vec!["rust code rust".to_string(), "more rust".to_string()];
    let boundaries = vec![FieldBoundary {
        doc_id: 0,
        start: 0,
        end: 4,
        field_type: FieldType::Title,
        section_id: Some("intro".to_string()),
    }];
    let index = build_fst_index(docs, texts, boundaries);
    let ranked: Vec<Vec<(u8, u32)>> = index
        .inverted_index
        .terms
        .iter()
        .map(|(_, list)| list.postings.iter().enumerate().map(|(j, _)| (0u8, 100 - j as u32)).collect())
        .collect();
    let bytes = assemble_index(&index, &ranked, ParametricDFA::build(true).to_bytes(), vec![]).unwrap();
    let layer = LoadedLayer::from_bytes(&bytes).unwrap();
    assert_eq!(layer.vocabulary, index.vocabulary);
    assert_eq!(layer.doc_count, 2);
    assert_eq!(layer.section_table, vec!["intro".to_string()]);
    assert_eq!(layer.docs.len(), 2);
    let rust = &layer.postings[2];
    assert_eq!(rust.len(), 3);
    assert_eq!(rust[0].section_idx, 1);
    assert_eq!(rust[0].score, 100);
}
