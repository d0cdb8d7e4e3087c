use sorex::docs_compression::{decode_docs_binary, encode_docs_binary, Doc, DocType};

fn sample_docs() -> Vec<Doc> {
    vec![
        Doc {
            id: 0,
            title: "About Harry".to_string(),
            excerpt: "I'm a performance engineer...".to_string(),
            href: "/about".to_string(),
            doc_type: "page".to_string(),
            category: None,
        },
        Doc {
            id: 1,
            title: "American Adventures Worth Planning For".to_string(),
            excerpt: "Organizing a 2026 adventure calendar...".to_string(),
            href: "/posts/2026/01/american-adventures-worth-planning-for".to_string(),
            doc_type: "post".to_string(),
            category: Some("adventures".to_string()),
        },
    ]
}

#[test]
fn test_roundtrip() {
    let docs = sample_docs();
    let encoded = encode_docs_binary(&docs);
    let decoded = decode_docs_binary(&encoded);

    assert_eq!(docs.len(), decoded.len());
    for (orig, dec) in docs.iter().zip(decoded.iter()) {
        assert_eq!(orig.title, dec.title);
        assert_eq!(orig.excerpt, dec.excerpt);
        assert_eq!(orig.href, dec.href);
        assert_eq!(orig.doc_type, dec.doc_type);
        assert_eq!(orig.category, dec.category);
    }
}

#[test]
fn compact_docs_exact_bytes() {
    let docs = vec![Doc {
        id: 7,
        title: "Hi".to_string(),
        excerpt: "".to_string(),
        href: "/h".to_string(),
        doc_type: "page".to_string(),
        category: Some("c".to_string()),
    }];
    let encoded = encode_docs_binary(&docs);
    assert_eq!(encoded, vec![1, 0, 2, b'H', b'i', 0, 2, b'/', b'h', 1, b'c']);
}

#[test]
fn compact_docs_normalize_on_read() {
    let docs = vec![
        Doc {
            id: 42,
            title: "a".to_string(),
            excerpt: "b".to_string(),
            href: "c".to_string(),
            doc_type: "article".to_string(),
            category: Some("".to_string()),
        },
        Doc {
            id: 9,
            title: "é✓".to_string(),
            excerpt: "x".to_string(),
            href: "y".to_string(),
            doc_type: "page".to_string(),
            category: None,
        },
    ];
    let decoded = decode_docs_binary(&encode_docs_binary(&docs));
    assert_eq!(decoded.len(), 2);
    assert_eq!(decoded[0].id, 0);
    assert_eq!(decoded[1].id, 1);
    assert_eq!(decoded[0].doc_type, "post");
    assert_eq!(decoded[0].category, None);
    assert_eq!(decoded[1].doc_type, "page");
    assert_eq!(decoded[1].title, "é✓");
}

#[test]
fn compact_docs_empty_list() {
    let encoded = encode_docs_binary(&[]);
    assert_eq!(encoded, vec![0]);
    assert!(decode_docs_binary(&encoded).is_empty());
}

#[test]
fn compact_docs_long_string_uses_multibyte_length() {
    let long = "x".repeat(300);
    let docs = vec![Doc {
        id: 0,
        title: long.clone(),
        excerpt: String::new(),
        href: String::new(),
        doc_type: "post".to_string(),
        category: None,
    }];
    let encoded = encode_docs_binary(&docs);
    assert_eq!(&encoded[0..4], &[1, 1, 0xAC, 0x02]);
    let decoded = decode_docs_binary(&encoded);
    assert_eq!(decoded[0].title, long);
}

#[test]
fn compact_docs_invalid_utf8_is_replaced() {
    // One post whose title holds a lone continuation byte.
    let data = vec![1, 1, 1, 0x80, 0, 0, 0];
    let decoded = decode_docs_binary(&data);
    assert_eq!(decoded[0].title, "\u{FFFD}");
}

#[test]
fn doc_type_from_str() {
    assert_eq!(DocType::from_str("page"), DocType::Page);
    assert_eq!(DocType::from_str("post"), DocType::Post);
    assert_eq!(DocType::from_str("Page"), DocType::Post);
}
