use sorex::index::{build_index, is_suffix_array_sorted, suffix_at};
use sorex::types::{SearchDoc, SuffixEntry};

fn make_doc(id: usize) -> SearchDoc {
    SearchDoc {
        id,
        title: format!("Doc {}", id),
        excerpt: "".to_string(),
        href: format!("/doc/{}", id),
        kind: "post".to_string(),
        category: None,
        author: None,
        tags: vec![],
    }
}

fn common_prefix_chars(a: &str, b: &str) -> usize {
    a.chars().zip(b.chars()).take_while(|(x, y)| x == y).count()
}

#[test]
fn test_suffix_at() {
    let texts = vec!["hello".to_string()];
    let entry = SuffixEntry { doc_id: 0, offset: 2 };
    assert_eq!(suffix_at(&texts, &entry), "llo");
}

#[test]
fn test_suffix_at_unicode() {
    let texts = vec!["café".to_string()];
    let entry = SuffixEntry { doc_id: 0, offset: 2 };
    assert_eq!(suffix_at(&texts, &entry), "fé");
}

#[test]
fn test_build_index_sorted() {
    let docs = vec![make_doc(0), make_doc(1)];
    let texts = vec!["banana".to_string(), "apple".to_string()];
    let index = build_index(docs, texts.clone(), vec![]);
    assert!(is_suffix_array_sorted(&texts, &index.suffix_array));
}

#[test]
fn test_build_index_sorted_unicode() {
    let docs = vec![make_doc(0)];
    let texts = vec!["tummalachērla hello".to_string()];
    let index = build_index(docs, texts.clone(), vec![]);
    assert!(is_suffix_array_sorted(&texts, &index.suffix_array));
}

#[test]
fn test_build_index_complete() {
    let docs = vec![make_doc(0)];
    let texts = vec!["abc".to_string()];
    let index = build_index(docs, texts, vec![]);
    assert_eq!(index.suffix_array.len(), 3);
}

#[test]
fn test_build_index_complete_unicode() {
    let docs = vec![make_doc(0)];
    let texts = vec!["café".to_string()];
    let index = build_index(docs, texts, vec![]);
    assert_eq!(index.suffix_array.len(), 4);
}

#[test]
fn test_lcp_correct() {
    let docs = vec![make_doc(0)];
    let texts = vec!["banana".to_string()];
    let index = build_index(docs, texts, vec![]);
    assert_eq!(index.lcp[0], 0);
    for i in 1..index.lcp.len() {
        let prev = suffix_at(&index.texts, &index.suffix_array[i - 1]);
        let curr = suffix_at(&index.texts, &index.suffix_array[i]);
        assert_eq!(index.lcp[i], common_prefix_chars(&prev, &curr));
    }
}

#[test]
fn build_index_exact_order_and_lcp() {
    let docs = vec![make_doc(0)];
    let texts = vec!["banana".to_string()];
    let index = build_index(docs, texts, vec![]);
    let offsets: Vec<usize> = index.suffix_array.iter().map(|e| e.offset).collect();
    assert_eq!(offsets, vec![5, 3, 1, 0, 4, 2]);
    assert_eq!(index.lcp, vec![0, 1, 3, 0, 0, 2]);
    assert_eq!(index.version, 4);
}

#[test]
fn build_index_equal_suffixes_keep_document_order() {
    let docs = vec![make_doc(1), make_doc(0)];
    let texts = vec!["ab".to_string(), "ab".to_string()];
    let index = build_index(docs, texts, vec![]);
    let pairs: Vec<(usize, usize)> = index.suffix_array.iter().map(|e| (e.doc_id, e.offset)).collect();
    assert_eq!(pairs, vec![(1, 0), (0, 0), (1, 1), (0, 1)]);
    assert_eq!(index.lcp, vec![0, 2, 0, 1]);
}

#[test]
fn build_index_skips_documents_without_text() {
    let docs = vec![make_doc(0), make_doc(5)];
    let texts = vec!["xy".to_string()];
    let index = build_index(docs, texts, vec![]);
    assert_eq!(index.suffix_array.len(), 2);
}

#[test]
fn suffix_at_out_of_range() {
    let texts = vec!["hi".to_string()];
    assert_eq!(suffix_at(&texts, &SuffixEntry { doc_id: 3, offset: 0 }), "");
    assert_eq!(suffix_at(&texts, &SuffixEntry { doc_id: 0, offset: 9 }), "");
}

#[test]
fn unsorted_array_detected() {
    let texts = vec!["ba".to_string()];
    let sa = vec![SuffixEntry { doc_id: 0, offset: 0 }, SuffixEntry { doc_id: 0, offset: 1 }];
    assert!(!is_suffix_array_sorted(&texts, &sa));
}
