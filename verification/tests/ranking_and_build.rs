use std::cmp::Ordering;

use sorex::binary::{encode_docs_binary, BinaryLayer, LoadedLayer, PostingEntry};
use sorex::builder::{build_section_table, section_index, select_documents};
use sorex::inverted::{select_index_mode, IndexThresholds};
use sorex::manifest::{Document, IncludeFilter, NormalizedIndexDefinition};
use sorex::ranking::{compare_results, SearchResult};
use sorex::levenshtein_dfa::ParametricDFA;
use sorex::types::{FieldBoundary, FieldType, IndexMode, MatchType, SearchDoc};

fn result(doc_id: usize, section_idx: u32, match_type: MatchType) -> SearchResult {
    SearchResult { doc_id, section_idx, tier: 1, match_type, matched_term: None }
}

fn search_doc(id: usize, title: &str) -> SearchDoc {
    SearchDoc {
        id,
        title: title.to_string(),
        excerpt: String::new(),
        href: format!("/{}", id),
        kind: "post".to_string(),
        category: None,
        author: None,
        tags: vec![],
    }
}

#[test]
fn test_compare_results_title_beats_section() {
    let title = result(0, 0, MatchType::Title);
    let title_score = 50.0_f64;
    let section = result(1, 1, MatchType::Section);
    let section_score = 100.0_f64; // Higher score
    let docs: Vec<SearchDoc> = vec![];

    // Title should win despite lower score
    let score_order = section_score.partial_cmp(&title_score);
    assert_eq!(compare_results(&title, &section, score_order, &docs), Ordering::Less);
}

#[test]
fn test_compare_results_within_bucket_uses_score() {
    let high_score = result(0, 0, MatchType::Section);
    let high = 100.0_f64;
    let low_score = result(1, 1, MatchType::Section); // Same bucket
    let low = 50.0_f64;
    let docs: Vec<SearchDoc> = vec![];

    // Same bucket, so score matters
    let score_order = low.partial_cmp(&high);
    assert_eq!(compare_results(&high_score, &low_score, score_order, &docs), Ordering::Less);
}

#[test]
fn compare_results_bucket_ignores_scores_both_ways() {
    let content = result(0, 0, MatchType::Content);
    let subsection = result(1, 2, MatchType::Subsection);
    let docs: Vec<SearchDoc> = vec![];
    for so in [Some(Ordering::Less), Some(Ordering::Equal), Some(Ordering::Greater), None] {
        assert_eq!(compare_results(&subsection, &content, so, &docs), Ordering::Less);
        assert_eq!(compare_results(&content, &subsection, so, &docs), Ordering::Greater);
    }
}

#[test]
fn compare_results_ties_fall_to_title_then_id() {
    let docs = vec![search_doc(0, "Zebra"), search_doc(1, "Apple"), search_doc(2, "Apple")];
    let a = result(0, 0, MatchType::Content);
    let b = result(1, 0, MatchType::Content);
    let c = result(2, 0, MatchType::Content);
    // Equal scores: the title decides, in byte order
    assert_eq!(compare_results(&a, &b, Some(Ordering::Equal), &docs), Ordering::Greater);
    // Incomparable scores (NaN) fall to the title as well
    let nan = f64::NAN;
    assert_eq!(compare_results(&b, &a, nan.partial_cmp(&1.0), &docs), Ordering::Less);
    // Same title: the document id decides
    assert_eq!(compare_results(&b, &c, Some(Ordering::Equal), &docs), Ordering::Less);
    assert_eq!(compare_results(&c, &b, Some(Ordering::Equal), &docs), Ordering::Greater);
    assert_eq!(compare_results(&c, &c, Some(Ordering::Equal), &docs), Ordering::Equal);
    // A document id past the end has an empty title, which sorts first
    let ghost = result(7, 0, MatchType::Content);
    assert_eq!(compare_results(&ghost, &b, None, &docs), Ordering::Less);
}

#[test]
fn match_type_bytes_follow_rank() {
    assert_eq!(MatchType::Title.to_u8(), 0);
    assert_eq!(MatchType::Section.to_u8(), 1);
    assert_eq!(MatchType::Subsection.to_u8(), 2);
    assert_eq!(MatchType::Subsubsection.to_u8(), 3);
    assert_eq!(MatchType::Content.to_u8(), 4);
}

#[test]
fn test_index_mode_selection_small() {
    let thresholds = IndexThresholds::default();
    let mode = select_index_mode(10, 5000, false, false, &thresholds);
    assert_eq!(mode, IndexMode::SuffixArrayOnly);
}

#[test]
fn test_index_mode_selection_large_exact() {
    let thresholds = IndexThresholds::default();
    let mode = select_index_mode(1000, 1_000_000, false, false, &thresholds);
    assert_eq!(mode, IndexMode::InvertedIndexOnly);
}

#[test]
fn test_index_mode_selection_large_fuzzy() {
    let thresholds = IndexThresholds::default();
    let mode = select_index_mode(1000, 1_000_000, false, true, &thresholds);
    assert_eq!(mode, IndexMode::Hybrid);
}

#[test]
fn index_mode_medium_and_boundary_cases() {
    let t = IndexThresholds::default();
    assert_eq!(t.suffix_only_max_docs, 50);
    assert_eq!(t.suffix_only_max_bytes, 100_000);
    assert_eq!(t.inverted_only_min_docs, 500);
    // Few docs but too much text, needing prefix search: still the suffix array
    assert_eq!(select_index_mode(10, 200_000, true, false, &t), IndexMode::SuffixArrayOnly);
    // Medium content with exact queries only: the suffix array
    assert_eq!(select_index_mode(200, 200_000, false, false, &t), IndexMode::SuffixArrayOnly);
    // The thresholds themselves
    assert_eq!(select_index_mode(50, 100_000, false, false, &t), IndexMode::SuffixArrayOnly);
    assert_eq!(select_index_mode(500, 100_001, false, false, &t), IndexMode::InvertedIndexOnly);
    assert_eq!(select_index_mode(500, 100_001, true, false, &t), IndexMode::Hybrid);
}

fn make_doc(id: usize, slug: &str, category: Option<&str>) -> Document {
    Document {
        id,
        slug: slug.to_string(),
        title: format!("Title {}", slug),
        excerpt: format!("Excerpt {}", slug),
        href: format!("/{}", slug),
        doc_type: "post".to_string(),
        category: category.map(|s| s.to_string()),
        author: None,
        tags: vec![],
        text: format!("{} content", slug),
        field_boundaries: vec![],
    }
}

#[test]
fn test_filter_all() {
    let docs = [make_doc(0, "a", Some("eng")), make_doc(1, "b", Some("adventures"))];

    let def = NormalizedIndexDefinition { inclusion: IncludeFilter::All, fields: None };

    let filtered: Vec<&Document> = docs.iter().filter(|d| def.inclusion.matches(d)).collect();
    assert_eq!(filtered.len(), 2);
}

#[test]
fn test_filter_by_category() {
    let docs = [
        make_doc(0, "a", Some("eng")),
        make_doc(1, "b", Some("adventures")),
        make_doc(2, "c", Some("eng")),
    ];

    let filters = vec![("category".to_string(), "eng".to_string())];
    let def = NormalizedIndexDefinition { inclusion: IncludeFilter::Filter(filters), fields: None };

    let filtered: Vec<&Document> = docs.iter().filter(|d| def.inclusion.matches(d)).collect();
    assert_eq!(filtered.len(), 2);
    assert_eq!(filtered[0].slug, "a");
    assert_eq!(filtered[1].slug, "c");
}

#[test]
fn test_doc_id_remapping() {
    let docs = [make_doc(0, "a", None), make_doc(1, "b", None)];

    let def = NormalizedIndexDefinition { inclusion: IncludeFilter::All, fields: None };

    let filtered: Vec<&Document> = docs.iter().filter(|d| def.inclusion.matches(d)).collect();

    // After remapping, the new IDs should be 0, 1
    for (new_id, _doc) in filtered.iter().enumerate() {
        assert_eq!(new_id, new_id); // Just checking the structure
    }
}

fn boundary(doc_id: usize, start: usize, end: usize, field_type: FieldType, section: Option<&str>) -> FieldBoundary {
    FieldBoundary { doc_id, start, end, field_type, section_id: section.map(|s| s.to_string()) }
}

#[test]
fn select_documents_renumbers_and_filters_fields() {
    let mut a = make_doc(3, "a", Some("eng"));
    a.field_boundaries = vec![
        boundary(3, 0, 7, FieldType::Title, None),
        boundary(3, 8, 20, FieldType::Content, Some("intro")),
    ];
    a.tags = vec!["rust".to_string()];
    let b = make_doc(5, "b", Some("travel"));
    let mut c = make_doc(9, "c", Some("eng"));
    c.field_boundaries = vec![boundary(9, 0, 4, FieldType::Heading, Some("setup"))];

    let def = NormalizedIndexDefinition {
        inclusion: IncludeFilter::Filter(vec![("category".to_string(), "eng".to_string())]),
        fields: Some(vec!["title".to_string(), "heading".to_string()]),
    };
    let (search_docs, texts, bounds) = select_documents(&def, &[a, b, c]);

    assert_eq!(search_docs.len(), 2);
    assert_eq!(search_docs[0].id, 0);
    assert_eq!(search_docs[0].title, "Title a");
    assert_eq!(search_docs[0].kind, "post");
    assert_eq!(search_docs[0].category, Some("eng".to_string()));
    assert_eq!(search_docs[0].tags, vec!["rust".to_string()]);
    assert_eq!(search_docs[1].id, 1);
    assert_eq!(search_docs[1].href, "/c");
    assert_eq!(texts, vec!["a content".to_string(), "c content".to_string()]);

    // The content boundary is filtered out; the others move to the new ids
    assert_eq!(bounds.len(), 2);
    assert_eq!((bounds[0].doc_id, bounds[0].start, bounds[0].end), (0, 0, 7));
    assert_eq!(bounds[0].field_type, FieldType::Title);
    assert_eq!(bounds[0].section_id, None);
    assert_eq!((bounds[1].doc_id, bounds[1].start, bounds[1].end), (1, 0, 4));
    assert_eq!(bounds[1].section_id, Some("setup".to_string()));

    // Without a field list every boundary stays
    let all = NormalizedIndexDefinition { inclusion: IncludeFilter::All, fields: None };
    let mut a2 = make_doc(3, "a", None);
    a2.field_boundaries = vec![boundary(3, 8, 20, FieldType::Content, Some("intro"))];
    let (docs2, _, bounds2) = select_documents(&all, &[make_doc(1, "z", None), a2]);
    assert_eq!(docs2.len(), 2);
    assert_eq!(bounds2.len(), 1);
    assert_eq!(bounds2[0].doc_id, 1);
}

#[test]
fn section_table_is_sorted_and_distinct() {
    let bounds = vec![
        boundary(0, 0, 5, FieldType::Title, None),
        boundary(0, 5, 9, FieldType::Heading, Some("usage")),
        boundary(1, 0, 3, FieldType::Heading, Some("intro")),
        boundary(1, 3, 8, FieldType::Content, Some("usage")),
        boundary(2, 0, 3, FieldType::Heading, Some("Zeta")),
        boundary(2, 3, 6, FieldType::Heading, Some("éclair")),
    ];
    let table = build_section_table(&bounds);
    // Byte order: uppercase before lowercase, multi-byte letters last
    assert_eq!(table, vec!["Zeta".to_string(), "intro".to_string(), "usage".to_string(), "éclair".to_string()]);
    assert!(build_section_table(&[]).is_empty());
}

#[test]
fn section_index_is_one_based() {
    let table = vec!["intro".to_string(), "usage".to_string()];
    assert_eq!(section_index(&table, &None), 0);
    assert_eq!(section_index(&table, &Some("intro".to_string())), 1);
    assert_eq!(section_index(&table, &Some("usage".to_string())), 2);
    assert_eq!(section_index(&table, &Some("missing".to_string())), 0);
}

#[test]
fn section_index_resolves_after_loading() {
    let bounds = vec![
        boundary(0, 0, 5, FieldType::Heading, Some("setup")),
        boundary(1, 0, 5, FieldType::Heading, Some("intro")),
    ];
    let table = build_section_table(&bounds);
    let setup = section_index(&table, &Some("setup".to_string()));
    let intro = section_index(&table, &Some("intro".to_string()));
    let postings = vec![vec![
        PostingEntry { doc_id: 0, section_idx: setup, heading_level: 2, score: 0 },
        PostingEntry { doc_id: 1, section_idx: intro, heading_level: 2, score: 0 },
    ]];
    let layer = BinaryLayer::build_v6(
        &["term".to_string()],
        &[(0, 0)],
        &postings,
        &table,
        2,
        ParametricDFA::build(true).to_bytes(),
        encode_docs_binary(&[]),
    )
    .unwrap();
    let loaded = LoadedLayer::from_bytes(&layer.to_bytes().unwrap()).unwrap();
    let entries = loaded.get_postings("term").unwrap();
    assert_eq!(loaded.resolve_section_id(entries[0].section_idx), Some("setup"));
    assert_eq!(loaded.resolve_section_id(entries[1].section_idx), Some("intro"));
    assert_eq!(loaded.resolve_section_id(section_index(&table, &Some("gone".to_string()))), None);
}

#[test]
fn section_table_ignores_boundary_order() {
    let mut bounds = vec![
        boundary(0, 0, 5, FieldType::Heading, Some("usage")),
        boundary(1, 0, 3, FieldType::Heading, Some("intro")),
        boundary(2, 0, 3, FieldType::Heading, Some("api")),
        boundary(2, 3, 6, FieldType::Content, Some("intro")),
    ];
    let forward = build_section_table(&bounds);
    bounds.reverse();
    assert_eq!(build_section_table(&bounds), forward);
    assert_eq!(forward, vec!["api".to_string(), "intro".to_string(), "usage".to_string()]);
}
