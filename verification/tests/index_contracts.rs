use sorex::manifest::{IncludeFilter, IncludeFilterValue};
use sorex::contracts::{
    check_all_entries_valid, check_binary_search_precondition, check_binary_search_result, check_field_hierarchy, check_index_complete,
    check_index_well_formed, check_lcp_correct, check_levenshtein_early_exit,
    check_suffix_array_complete, check_suffix_array_sorted, check_suffix_entry_valid,
};
use sorex::index::build_index;
use sorex::scoring::get_field_type_from_boundaries;
use sorex::types::{FieldBoundary, FieldType, SearchDoc, SearchIndex, SuffixEntry};

#[test]
fn test_check_suffix_entry_valid() {
    let texts = vec!["hello".to_string()];
    let valid_entry = SuffixEntry { doc_id: 0, offset: 2 };
    check_suffix_entry_valid(&valid_entry, &texts);
}

#[test]
fn entries_check_accepts_last_byte() {
    let texts = vec!["hello".to_string()];
    check_all_entries_valid(&[SuffixEntry { doc_id: 0, offset: 4 }, SuffixEntry { doc_id: 0, offset: 0 }], &texts);
}

#[test]
fn test_check_field_hierarchy() {
    check_field_hierarchy();
}

#[test]
fn test_check_levenshtein_early_exit() {
    check_levenshtein_early_exit("hello", "hi", 1, false);
    check_levenshtein_early_exit("hello", "hallo", 1, true);
}

#[test]
fn binary_search_result_bounds() {
    check_binary_search_result(3, 3);
    check_binary_search_result(0, 3);
}

fn doc(id: usize) -> SearchDoc {
    SearchDoc {
        id,
        title: format!("Doc {}", id),
        excerpt: String::new(),
        href: format!("/doc/{}", id),
        kind: "post".to_string(),
        category: None,
        author: None,
        tags: vec![],
    }
}

fn banana_index() -> SearchIndex {
    // Suffixes of "banana" in byte order: a, ana, anana, banana, na, nana.
    let texts = vec!["banana".to_string()];
    let order = [5usize, 3, 1, 0, 4, 2];
    let suffix_array: Vec<SuffixEntry> = order.iter().map(|&o| SuffixEntry { doc_id: 0, offset: o }).collect();
    let lcp = vec![0, 1, 3, 0, 0, 2];
    SearchIndex { docs: vec![doc(0)], texts, suffix_array, lcp, field_boundaries: vec![], version: 4 }
}

#[test]
fn test_check_index_well_formed() {
    let docs = vec![doc(0), doc(1)];
    let texts = vec!["hello".to_string(), "world".to_string()];
    let index = build_index(docs, texts, vec![]);
    check_index_well_formed(&index);
}

#[test]
fn sorted_complete_index_passes_all_checks() {
    let index = banana_index();
    check_suffix_array_sorted(&index.texts, &index.suffix_array);
    check_binary_search_precondition(&index.texts, &index.suffix_array);
    check_suffix_array_complete(&index.texts, &index.suffix_array);
    check_lcp_correct(&index.texts, &index.suffix_array, &index.lcp);
    check_index_well_formed(&index);
    check_index_complete(&index);
}

#[test]
fn field_type_uses_first_covering_boundary() {
    let boundaries = vec![
        FieldBoundary { doc_id: 0, start: 0, end: 10, field_type: FieldType::Title, section_id: None },
        FieldBoundary { doc_id: 0, start: 5, end: 20, field_type: FieldType::Heading, section_id: Some("h".to_string()) },
        FieldBoundary { doc_id: 1, start: 0, end: 10, field_type: FieldType::Heading, section_id: None },
    ];
    assert_eq!(get_field_type_from_boundaries(0, 7, &boundaries), FieldType::Title);
    assert_eq!(get_field_type_from_boundaries(0, 15, &boundaries), FieldType::Heading);
    assert_eq!(get_field_type_from_boundaries(0, 20, &boundaries), FieldType::Content);
    assert_eq!(get_field_type_from_boundaries(2, 0, &boundaries), FieldType::Content);
}

fn manifest_doc(doc_type: &str, category: Option<&str>) -> sorex::manifest::Document {
    sorex::manifest::Document {
        id: 0,
        slug: "s".to_string(),
        title: "T".to_string(),
        excerpt: "E".to_string(),
        href: "/s".to_string(),
        doc_type: doc_type.to_string(),
        category: category.map(|c| c.to_string()),
        author: None,
        tags: vec![],
        text: "text".to_string(),
        field_boundaries: vec![],
    }
}

#[test]
fn include_filter_matches_criteria() {
    let all: IncludeFilter = IncludeFilterValue::All("*".to_string()).into();
    assert!(all.matches(&manifest_doc("post", None)));

    let eng: IncludeFilter =
        IncludeFilterValue::Filter(vec![("category".to_string(), "engineering".to_string())]).into();
    assert!(eng.matches(&manifest_doc("post", Some("engineering"))));
    assert!(!eng.matches(&manifest_doc("post", Some("travel"))));
    assert!(!eng.matches(&manifest_doc("post", None)));

    let pages = IncludeFilter::Filter(vec![
        ("type".to_string(), "page".to_string()),
        ("color".to_string(), "blue".to_string()),
    ]);
    assert!(pages.matches(&manifest_doc("page", None)));
    assert!(!pages.matches(&manifest_doc("post", None)));
}
