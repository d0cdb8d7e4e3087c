use sorex::levenshtein::levenshtein_within;
use sorex::levenshtein_dfa::{ParametricDFA, QueryMatcher};

#[test]
fn levenshtein_test_exact_match() {
    assert!(levenshtein_within("hello", "hello", 0));
}

#[test]
fn levenshtein_test_one_edit() {
    assert!(levenshtein_within("hello", "hallo", 1));
    assert!(levenshtein_within("hello", "hell", 1));
    assert!(levenshtein_within("hello", "helloo", 1));
}

#[test]
fn test_early_exit() {
    assert!(!levenshtein_within("a", "abcdef", 1));
}

#[test]
fn levenshtein_test_two_edits() {
    assert!(levenshtein_within("hello", "hxllo", 1));
    assert!(levenshtein_within("photography", "phptography", 2));
}

#[test]
fn test_unicode_diacritics() {
    assert!(levenshtein_within("tummalacherla", "tummalachērla", 2));
    assert!(levenshtein_within("harish", "harīṣh", 2));
    assert!(levenshtein_within("cafe", "café", 1));
}

#[test]
fn levenshtein_rejects_distance_above_max() {
    assert!(!levenshtein_within("kitten", "sitting", 2));
    assert!(levenshtein_within("kitten", "sitting", 3));
    assert!(levenshtein_within("", "", 0));
    assert!(!levenshtein_within("", "ab", 1));
}

#[test]
fn builds_agree_and_stay_small() {
    for with_transpositions in [true, false] {
        let a = ParametricDFA::build(with_transpositions);
        let b = ParametricDFA::build(with_transpositions);
        assert_eq!(a.num_states, b.num_states);
        assert_eq!(a.accept, b.accept);
        assert_eq!(a.transitions, b.transitions);
        assert!(a.num_states as usize <= sorex::levenshtein_dfa::MAX_DFA_STATES);
    }
}

#[test]
fn test_build_dfa() {
    let dfa = ParametricDFA::build(true);
    println!("Built DFA with {} states", dfa.num_states);
    println!("Serialized size: {} bytes", dfa.serialized_size());
    assert!(dfa.num_states > 0);
    assert!(dfa.num_states < 200);
}

#[test]
fn test_serialize_roundtrip() {
    let dfa = ParametricDFA::build(true);
    let bytes = dfa.to_bytes();
    let restored = ParametricDFA::from_bytes(&bytes).unwrap();
    assert_eq!(dfa.num_states, restored.num_states);
    assert_eq!(dfa.accept, restored.accept);
    assert_eq!(dfa.transitions, restored.transitions);
}

#[test]
fn levenshtein_dfa_test_exact_match() {
    let dfa = ParametricDFA::build(true);
    let matcher = QueryMatcher::new(&dfa, "hello");
    assert_eq!(matcher.matches("hello"), Some(0));
    assert_eq!(matcher.matches("world"), None);
}

#[test]
fn levenshtein_dfa_test_one_edit() {
    let dfa = ParametricDFA::build(true);
    let matcher = QueryMatcher::new(&dfa, "hello");
    assert_eq!(matcher.matches("hallo"), Some(1));
    assert_eq!(matcher.matches("helloo"), Some(1));
    assert_eq!(matcher.matches("helo"), Some(1));
}

#[test]
fn levenshtein_dfa_test_two_edits() {
    let dfa = ParametricDFA::build(true);
    let matcher = QueryMatcher::new(&dfa, "hello");
    assert_eq!(matcher.matches("hllo"), Some(1));
    assert_eq!(matcher.matches("helllo"), Some(1));
    assert!(matcher.matches("help").is_some());
}

#[test]
fn test_transposition() {
    let dfa = ParametricDFA::build(true);
    let matcher = QueryMatcher::new(&dfa, "hello");
    let result = matcher.matches("hlelo");
    assert!(result.is_some());
    assert!(result.unwrap() <= 2);
}

#[test]
fn test_too_many_edits() {
    let dfa = ParametricDFA::build(true);
    let matcher = QueryMatcher::new(&dfa, "hello");
    assert_eq!(matcher.matches("xxxxx"), None);
    assert_eq!(matcher.matches("h"), None);
}

#[test]
fn test_programming_typo() {
    let dfa = ParametricDFA::build(true);
    let matcher = QueryMatcher::new(&dfa, "progamming");
    let result = matcher.matches("programming");
    assert!(result.is_some(), "programming should match progamming");
    assert!(result.unwrap() <= 2);
}

#[test]
fn dfa_rejects_bad_headers() {
    assert!(ParametricDFA::from_bytes(&[1, 0, 2]).is_err());
    assert!(ParametricDFA::from_bytes(&[0, 0, 3, 0, 0, 0, 0, 0]).is_err());
    let empty = ParametricDFA::from_bytes(&[0, 0, 2, 1, 0, 0, 0, 0]).unwrap();
    assert_eq!(empty.num_states, 0);
    assert!(empty.with_transpositions);
}
