use sorex::hybrid::{find_fuzzy_matches, find_substring_matches};
use sorex::sais::build_vocab_suffix_array_sais;

fn vocab(words: &[&str]) -> Vec<String> {
    words.iter().map(|w| w.to_string()).collect()
}

#[test]
fn substring_search_finds_inner_matches() {
    let v = vocab(&["javascript", "python", "rust", "typescript"]);
    let sa = build_vocab_suffix_array_sais(&v);

    // "script" sits inside two terms
    let mut hits = find_substring_matches(&v, &sa, "script");
    hits.sort();
    assert_eq!(hits, vocab(&["javascript", "typescript"]));

    // A whole term, and a prefix of one
    assert_eq!(find_substring_matches(&v, &sa, "rust"), vocab(&["rust"]));
    assert_eq!(find_substring_matches(&v, &sa, "pyt"), vocab(&["python"]));

    // No match
    assert!(find_substring_matches(&v, &sa, "zzz").is_empty());
    assert!(find_substring_matches(&v, &sa, "scripts").is_empty());
}

#[test]
fn substring_search_reports_each_term_once() {
    let v = vocab(&["banana", "bandana"]);
    let sa = build_vocab_suffix_array_sais(&v);
    // "an" occurs twice in each term
    let mut hits = find_substring_matches(&v, &sa, "an");
    hits.sort();
    assert_eq!(hits, vocab(&["banana", "bandana"]));
    // The empty query matches every term, once each
    assert_eq!(find_substring_matches(&v, &sa, "").len(), 2);
    // An empty suffix array finds nothing
    assert!(find_substring_matches(&v, &[], "an").is_empty());
}

#[test]
fn fuzzy_search_keeps_terms_within_distance() {
    let v = vocab(&["rust", "rest", "trust", "python", "rusty", "ru"]);
    assert_eq!(find_fuzzy_matches(&v, "rust", 0), vocab(&["rust"]));
    assert_eq!(find_fuzzy_matches(&v, "rust", 1), vocab(&["rust", "rest", "trust", "rusty"]));
    assert_eq!(find_fuzzy_matches(&v, "rust", 2), vocab(&["rust", "rest", "trust", "rusty", "ru"]));
    assert!(find_fuzzy_matches(&v, "kotlin", 1).is_empty());
    // Characters, not bytes, are counted
    assert_eq!(find_fuzzy_matches(&vocab(&["café", "cafe"]), "cafe", 1), vocab(&["café", "cafe"]));
}
