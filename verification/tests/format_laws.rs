use sorex::binary::{decode_vocabulary, encode_docs_binary, encode_vocabulary, BinaryLayer, LoadedLayer, SkipList};
use sorex::levenshtein_dfa::ParametricDFA;
use sorex::error::FormatError;

#[test]
fn skip_list_decodes_back_with_trailing_bytes() {
    let doc_ids: Vec<u32> = (0..5000u32).map(|i| i * 3).collect();
    let list = SkipList::build(&doc_ids).unwrap();
    let mut buf = Vec::new();
    list.encode(&mut buf);
    let mut bytes = buf.clone();
    bytes.extend_from_slice(&[0xAB, 0xCD, 0xEF]);
    let (decoded, used) = SkipList::decode(&bytes).unwrap();
    assert_eq!(used, buf.len());
    assert_eq!(decoded.levels.len(), list.levels.len());
    for (a, b) in decoded.levels.iter().zip(list.levels.iter()) {
        assert_eq!(a.len(), b.len());
        for (x, y) in a.iter().zip(b.iter()) {
            assert_eq!((x.doc_id, x.block_offset), (y.doc_id, y.block_offset));
        }
    }
}

#[test]
fn vocabulary_decoding_refuses_one_term_too_many() {
    let terms = vec!["applications".to_string(), "apply".to_string(), "zebra".to_string()];
    let mut out = Vec::new();
    encode_vocabulary(&terms, &mut out);
    assert_eq!(decode_vocabulary(&out, terms.len()).unwrap(), terms);
    assert_eq!(decode_vocabulary(&out, terms.len() + 1), Err(FormatError::TruncatedVocabulary));
}

#[test]
fn vocabulary_decoding_refuses_a_too_long_shared_prefix() {
    assert_eq!(decode_vocabulary(&[1, 0], 1), Err(FormatError::InvalidSharedPrefix));
}

#[test]
fn loading_a_built_file_gives_back_its_skip_lists() {
    use_layer_roundtrip();
}

fn use_layer_roundtrip() {
    let vocabulary = vec!["common".to_string(), "rare".to_string()];
    let suffix_array = vec![(0, 0), (1, 0)];
    let long: Vec<u32> = (0..2000u32).collect();
    let postings = vec![long.clone(), vec![7]];
    let lev = ParametricDFA::build(true).to_bytes();
    let layer = BinaryLayer::build(&vocabulary, &suffix_array, &postings, 2000, lev, encode_docs_binary(&[])).unwrap();
    let bytes = layer.to_bytes().unwrap();
    let loaded = LoadedLayer::from_bytes(&bytes).unwrap();
    assert_eq!(loaded.vocabulary, vocabulary);
    assert_eq!(loaded.skip_lists.len(), 1);
    let expected = SkipList::build(&long).unwrap();
    let got = loaded.skip_lists.get(&0).unwrap();
    assert_eq!(got.levels.len(), expected.levels.len());
    assert!(loaded.skip_lists.get(&1).is_none());
    assert_eq!(loaded.postings[1].len(), 1);
}
