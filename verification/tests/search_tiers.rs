use sorex::fst_index::{build_fst_index, tokenize, FstIndex, InvertedIndex};
use sorex::index::build_index;
use sorex::search::{
    docs_matching_all, exclude_docs, match_part, search, search_exact, search_expanded, search_fuzzy,
    search_hybrid, search_inverted_only, search_unified, UnifiedIndex,
};
use sorex::types::{FieldBoundary, FieldType, IndexMode, SearchDoc};

fn make_doc(id: usize, title: &str) -> SearchDoc {
    SearchDoc {
        id,
        title: title.to_string(),
        excerpt: String::new(),
        href: format!("/doc/{}", id),
        kind: "post".to_string(),
        category: None,
        author: None,
        tags: vec![],
    }
}

fn parts(q: &str) -> Vec<String> {
    q.split(' ').filter(|p| !p.is_empty()).map(|p| p.to_string()).collect()
}

fn hybrid(texts: &[&str]) -> FstIndex {
    let docs: Vec<SearchDoc> = (0..texts.len()).map(|i| make_doc(i, "Doc")).collect();
    build_fst_index(docs, texts.iter().map(|t| t.to_string()).collect(), vec![])
}

fn sorted(mut v: Vec<usize>) -> Vec<usize> {
    v.sort();
    v
}

#[test]
fn test_search_finds_matches() {
    let index = build_index(vec![make_doc(0, "Hello World")], vec!["hello world".to_string()], vec![]);
    let results = search(&index, &parts("hello"));
    assert_eq!(results, vec![0]);
    assert_eq!(index.docs[results[0]].title, "Hello World");
}

#[test]
fn test_search_empty_query() {
    let index = build_index(vec![make_doc(0, "Test")], vec!["test".to_string()], vec![]);
    assert!(search(&index, &parts("")).is_empty());
}

#[test]
fn test_search_no_matches() {
    let index = build_index(vec![make_doc(0, "Test")], vec!["test".to_string()], vec![]);
    assert!(search(&index, &parts("xyz")).is_empty());
}

#[test]
fn match_part_reports_each_hit_with_its_field() {
    let boundaries = vec![FieldBoundary { doc_id: 0, start: 0, end: 10, field_type: FieldType::Title, section_id: None }];
    let index = build_index(
        vec![make_doc(0, "Rust Guide"), make_doc(1, "Other")],
        vec!["rust guide".to_string(), "learn rust".to_string()],
        boundaries,
    );
    let mut hits = match_part(&index, "rust");
    hits.sort_by_key(|h| (h.0, h.1));
    assert_eq!(hits, vec![(0, 0, FieldType::Title), (1, 6, FieldType::Content)]);
    assert!(match_part(&index, "rusty").is_empty());
}

#[test]
fn search_keeps_documents_matching_every_part() {
    let index = build_index(
        vec![make_doc(0, "A"), make_doc(1, "B"), make_doc(2, "C")],
        vec!["rust programming".to_string(), "rust code".to_string(), "programming language".to_string()],
        vec![],
    );
    assert_eq!(search(&index, &parts("rust programming")), vec![0]);
    assert_eq!(sorted(search(&index, &parts("rust zzz"))), vec![0, 1]);
}

#[test]
fn intersection_and_exclusion() {
    assert_eq!(docs_matching_all(&vec![vec![3, 1, 3, 2], vec![2, 3], vec![3, 2, 9]]), vec![3, 2]);
    assert!(docs_matching_all(&vec![]).is_empty());
    assert_eq!(exclude_docs(&vec![4, 5, 6, 5], &[5]), vec![4, 6]);
}

#[test]
fn unified_search_dispatches_on_the_mode() {
    let texts = vec!["rust programming".to_string(), "rusted metal".to_string()];
    let fst = build_fst_index(vec![make_doc(0, "A"), make_doc(1, "B")], texts.clone(), vec![]);
    let sa = build_index(vec![make_doc(0, "A"), make_doc(1, "B")], texts.clone(), vec![]);
    let make = |mode: IndexMode, inverted: Option<InvertedIndex>| UnifiedIndex {
        docs: vec![],
        texts: texts.clone(),
        field_boundaries: vec![],
        mode,
        suffix_array: Some(sa.suffix_array.clone()),
        lcp: Some(sa.lcp.clone()),
        inverted_index: inverted,
    };
    let q = parts("rust");
    assert_eq!(sorted(search_unified(&make(IndexMode::SuffixArrayOnly, None), &q)), vec![0, 1]);
    assert_eq!(search_unified(&make(IndexMode::InvertedIndexOnly, Some(fst.inverted_index.clone())), &q), vec![0]);
    assert_eq!(search_unified(&make(IndexMode::Hybrid, Some(fst.inverted_index.clone())), &q), vec![0]);
    assert_eq!(sorted(search_unified(&make(IndexMode::Hybrid, Some(fst.inverted_index.clone())), &parts("rus"))), vec![0, 1]);
    assert_eq!(search_inverted_only(&fst.inverted_index, &parts("metal")), vec![1]);
}

#[test]
fn test_build_hybrid_index() {
    let index = hybrid(&["rust programming language", "python programming language"]);
    assert!(index.vocabulary.windows(2).all(|w| w[0] <= w[1]));
    for term in &index.vocabulary {
        assert!(index.inverted_index.terms.iter().any(|(t, _)| t == term));
    }
}

#[test]
fn test_exact_word_lookup() {
    let index = hybrid(&["rust programming"]);
    assert_eq!(search_hybrid(&index, &parts("rust")), vec![0]);
}

#[test]
fn test_prefix_search() {
    let index = hybrid(&["programming language", "program code"]);
    assert_eq!(search_hybrid(&index, &parts("prog")).len(), 2);
}

#[test]
fn test_substring_match() {
    let index = hybrid(&["reprogramming"]);
    assert_eq!(search_hybrid(&index, &parts("prog")), vec![0]);
}

#[test]
fn test_substring_finds_typescript() {
    let index = hybrid(&["typescript programming", "javascript programming"]);
    assert_eq!(search_hybrid(&index, &parts("script")).len(), 2);
}

#[test]
fn test_multi_word_and() {
    let index = hybrid(&["rust programming language", "rust code", "programming language"]);
    assert_eq!(search_hybrid(&index, &parts("rust programming")), vec![0]);
}

#[test]
fn test_vocabulary_size() {
    let index = hybrid(&["the the the rust rust"]);
    assert_eq!(index.vocabulary.len(), 2);
}

#[test]
fn test_search_exact_finds_exact_matches() {
    let index = hybrid(&["rust programming", "rusted metal"]);
    assert_eq!(search_exact(&index, &parts("rust")), vec![0]);
}

#[test]
fn test_search_expanded_finds_substring_matches() {
    let index = hybrid(&["typescript code", "javascript code"]);
    assert_eq!(search_expanded(&index, &parts("script"), &[]).len(), 2);
}

#[test]
fn test_streaming_exact_subset_full() {
    let index = hybrid(&["rust programming", "rusted metal"]);
    let exact = search_exact(&index, &parts("rust"));
    let full = search_hybrid(&index, &parts("rust"));
    for d in &exact {
        assert!(full.contains(d));
    }
}

#[test]
fn test_streaming_expanded_disjoint_exact() {
    let index = hybrid(&["rust programming", "rusted metal", "rustic style"]);
    let exact = search_exact(&index, &parts("rust"));
    let expanded = search_expanded(&index, &parts("rust"), &exact);
    for d in &expanded {
        assert!(!exact.contains(d));
    }
    assert_eq!(sorted(expanded), vec![1, 2]);
}

#[test]
fn test_streaming_union_superset_of_full() {
    let index = hybrid(&["typescript code", "javascript code", "script file"]);
    let exact = search_exact(&index, &parts("script"));
    let expanded = search_expanded(&index, &parts("script"), &exact);
    let full = search_hybrid(&index, &parts("script"));
    let mut union = exact.clone();
    union.extend(expanded.iter().copied());
    for d in &full {
        assert!(union.contains(d));
    }
    assert!(union.len() >= full.len());
}

#[test]
fn test_streaming_union_complete_for_prefix() {
    let index = hybrid(&["programming language", "programmer job"]);
    let exact = search_exact(&index, &parts("prog"));
    let expanded = search_expanded(&index, &parts("prog"), &exact);
    let full = search_hybrid(&index, &parts("prog"));
    let mut union = exact.clone();
    union.extend(expanded.iter().copied());
    union.sort();
    union.dedup();
    assert_eq!(union, sorted(full));
}

#[test]
fn test_streaming_empty_query() {
    let index = hybrid(&["rust programming"]);
    assert!(search_exact(&index, &parts("")).is_empty());
    assert!(search_expanded(&index, &parts(""), &[]).is_empty());
}

#[test]
fn test_streaming_no_matches() {
    let index = hybrid(&["rust programming"]);
    assert!(search_exact(&index, &parts("python")).is_empty());
    assert!(search_expanded(&index, &parts("python"), &[]).is_empty());
}

#[test]
fn fuzzy_tier_finds_near_words_and_skips_excluded() {
    let index = hybrid(&["rust programming", "python scripting"]);
    assert_eq!(search_fuzzy(&index, &parts("rusr"), &[]), vec![0]);
    assert!(search_fuzzy(&index, &parts("rusr"), &[0]).is_empty());
    assert_eq!(search_hybrid(&index, &parts("pythn")), vec![1]);
}

#[test]
fn test_tokenize_simple() {
    let tokens = tokenize("hello world");
    assert_eq!(tokens.len(), 2);
    assert_eq!(tokens[0].0, "hello");
    assert_eq!(tokens[0].1, 0);
    assert_eq!(tokens[1].0, "world");
    assert_eq!(tokens[1].1, 6);
}

#[test]
fn test_tokenize_with_punctuation() {
    let tokens = tokenize("hello, world!");
    assert_eq!(tokens.len(), 2);
    assert_eq!(tokens[0].0, "hello");
    assert_eq!(tokens[1].0, "world");
}

#[test]
fn test_tokenize_normalizes() {
    let tokens = tokenize("Hello WORLD");
    assert_eq!(tokens[0].0, "hello");
    assert_eq!(tokens[1].0, "world");
}

fn postings_of<'a>(index: &'a FstIndex, term: &str) -> &'a sorex::fst_index::PostingList {
    &index.inverted_index.terms.iter().find(|(t, _)| t == term).unwrap().1
}

#[test]
fn test_build_inverted_index_simple() {
    let index = hybrid(&["hello world", "world peace"]);
    let hello = postings_of(&index, "hello");
    assert_eq!(hello.postings.len(), 1);
    assert_eq!(hello.postings[0].doc_id, 0);
    assert_eq!(hello.doc_freq, 1);
    let world = postings_of(&index, "world");
    assert_eq!(world.postings.len(), 2);
    assert_eq!(world.doc_freq, 2);
}

#[test]
fn test_posting_list_sorted() {
    let index = hybrid(&["rust is great", "rust programming", "great rust code"]);
    let rust = postings_of(&index, "rust");
    for i in 1..rust.postings.len() {
        assert!(rust.postings[i - 1].doc_id <= rust.postings[i].doc_id);
    }
}

#[test]
fn exact_tier_is_full_when_every_part_is_a_word() {
    let index = hybrid(&["rust is fast", "rust is safe", "go is fast"]);
    let q = parts("rust fast");
    assert_eq!(search_exact(&index, &q), search_hybrid(&index, &q));
    assert_eq!(sorted(search_exact(&index, &q)), vec![0]);
    // One word and one fragment: the exact tier sees only the word.
    let mixed = parts("rust fas");
    assert_eq!(sorted(search_exact(&index, &mixed)), vec![0, 1]);
    assert_eq!(sorted(search_hybrid(&index, &mixed)), vec![0]);
}
