use sorex::sais::{build_vocab_suffix_array_sais, classify_suffixes_u8, sais, SuffixType};

fn assert_sorted_complete(text: &[u8], sa: &[usize]) {
    assert_eq!(sa.len(), text.len());
    for i in 1..sa.len() {
        let suffix_a = &text[sa[i - 1]..];
        let suffix_b = &text[sa[i]..];
        assert!(suffix_a <= suffix_b, "Not sorted at {}", i);
    }
    let mut positions: Vec<usize> = sa.to_vec();
    positions.sort();
    let expected: Vec<usize> = (0..text.len()).collect();
    assert_eq!(positions, expected);
}

#[test]
fn test_sais_simple() {
    let text = b"banana";
    let sa = sais(text);
    assert_eq!(sa.len(), text.len());
    for i in 1..sa.len() {
        let suffix_a = &text[sa[i - 1]..];
        let suffix_b = &text[sa[i]..];
        assert!(suffix_a <= suffix_b, "Not sorted at {}", i);
    }
    let mut positions: Vec<_> = sa.clone();
    positions.sort();
    assert_eq!(positions, vec![0, 1, 2, 3, 4, 5]);
}

#[test]
fn test_sais_single_char() {
    let text = b"a";
    let sa = sais(text);
    assert_eq!(sa, vec![0]);
}

#[test]
fn test_sais_repeated() {
    let text = b"aaa";
    let sa = sais(text);
    assert_eq!(sa.len(), 3);
    for i in 1..sa.len() {
        let suffix_a = &text[sa[i - 1]..];
        let suffix_b = &text[sa[i]..];
        assert!(suffix_a <= suffix_b);
    }
}

#[test]
fn test_sais_mississippi() {
    let text = b"mississippi";
    let sa = sais(text);
    assert_sorted_complete(text, &sa);
}

#[test]
fn test_classify_suffixes() {
    let text = b"banana\x00";
    let types = classify_suffixes_u8(text);
    assert_eq!(types[0], SuffixType::L);
    assert_eq!(types[1], SuffixType::S);
    assert_eq!(types[2], SuffixType::L);
    assert_eq!(types[3], SuffixType::S);
    assert_eq!(types[4], SuffixType::L);
    assert_eq!(types[5], SuffixType::L);
    assert_eq!(types[6], SuffixType::S);
}

#[test]
fn test_vocab_suffix_array_simple() {
    let vocabulary = vec!["rust".to_string(), "typescript".to_string()];
    let sa = build_vocab_suffix_array_sais(&vocabulary);
    for entry in &sa {
        assert!(entry.term_idx < vocabulary.len());
        assert!(entry.offset < vocabulary[entry.term_idx].len());
    }
    for i in 1..sa.len() {
        let suffix_a = &vocabulary[sa[i - 1].term_idx][sa[i - 1].offset..];
        let suffix_b = &vocabulary[sa[i].term_idx][sa[i].offset..];
        assert!(suffix_a <= suffix_b, "Not sorted: {:?} > {:?}", suffix_a, suffix_b);
    }
}

#[test]
fn test_vocab_suffix_array_finds_script() {
    let vocabulary = vec!["javascript".to_string(), "typescript".to_string()];
    let sa = build_vocab_suffix_array_sais(&vocabulary);
    let query = "script";
    let found: Vec<_> = sa
        .iter()
        .filter(|e| vocabulary[e.term_idx][e.offset..].starts_with(query))
        .collect();
    assert_eq!(found.len(), 2);
}

#[test]
fn test_vocab_suffix_array_empty() {
    let vocabulary: Vec<String> = vec![];
    let sa = build_vocab_suffix_array_sais(&vocabulary);
    assert!(sa.is_empty());
}

#[test]
fn test_sais_correctness_random() {
    let test_cases = [
        "abracadabra",
        "aaaaaa",
        "zyxwvutsrqponmlkjihgfedcba",
        "abcdefghijklmnopqrstuvwxyz",
        "the quick brown fox jumps over the lazy dog",
    ];
    for text_str in test_cases {
        let text = text_str.as_bytes();
        let sa = sais(text);
        assert_sorted_complete(text, &sa);
    }
}

#[test]
fn test_empty_and_two_char() {
    assert!(sais(b"").is_empty());

    let sa = sais(b"ab");
    assert_eq!(sa.len(), 2);
    assert!(b"ab"[sa[0]..] < b"ab"[sa[1]..]);

    let sa = sais(b"ba");
    assert_eq!(sa.len(), 2);
    assert!(b"ba"[sa[0]..] < b"ba"[sa[1]..]);
}

#[test]
fn sais_banana_exact_order() {
    assert_eq!(sais(b"banana"), vec![5, 3, 1, 0, 4, 2]);
    assert_eq!(sais(b"mississippi"), vec![10, 7, 4, 1, 0, 9, 8, 6, 3, 5, 2]);
}

#[test]
fn sais_text_with_zero_bytes_is_still_sorted() {
    let text = b"a\x00b\x00a\x00\x00";
    let sa = sais(text);
    assert_sorted_complete(text, &sa);
}

#[test]
fn sais_long_periodic_text() {
    let mut text = Vec::new();
    for i in 0..500u32 {
        text.push(b"abcab"[(i % 5) as usize]);
    }
    let sa = sais(&text);
    assert_sorted_complete(&text, &sa);
}

#[test]
fn vocab_suffix_array_exact_entries() {
    let vocabulary = vec!["ab".to_string(), "".to_string(), "b".to_string()];
    let sa = build_vocab_suffix_array_sais(&vocabulary);
    let pairs: Vec<(usize, usize)> = sa.iter().map(|e| (e.term_idx, e.offset)).collect();
    // Concatenation "ab\x01b\x01": suffixes "ab..", "b\x01b..", "b\x01" in order.
    assert_eq!(pairs, vec![(0, 0), (2, 0), (0, 1)]);
}

#[test]
fn vocab_suffix_array_covers_every_position_once() {
    let vocabulary = vec!["search".to_string(), "research".to_string(), "sea".to_string()];
    let sa = build_vocab_suffix_array_sais(&vocabulary);
    let total: usize = vocabulary.iter().map(|t| t.len()).sum();
    assert_eq!(sa.len(), total);
    let mut pairs: Vec<(usize, usize)> = sa.iter().map(|e| (e.term_idx, e.offset)).collect();
    pairs.sort();
    pairs.dedup();
    assert_eq!(pairs.len(), total);
}
