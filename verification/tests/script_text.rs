use sorex::script::bytes_to_base64;

#[test]
fn base64_standard_vectors() {
    assert_eq!(bytes_to_base64(b""), "");
    assert_eq!(bytes_to_base64(b"f"), "Zg==");
    assert_eq!(bytes_to_base64(b"fo"), "Zm8=");
    assert_eq!(bytes_to_base64(b"foo"), "Zm9v");
    assert_eq!(bytes_to_base64(b"foob"), "Zm9vYg==");
    assert_eq!(bytes_to_base64(b"fooba"), "Zm9vYmE=");
    assert_eq!(bytes_to_base64(b"foobar"), "Zm9vYmFy");
}

#[test]
fn base64_all_digits() {
    assert_eq!(bytes_to_base64(&[0xFB, 0xFF, 0xBF]), "+/+/");
    assert_eq!(bytes_to_base64(&[0, 0, 0]), "AAAA");
    let bytes: Vec<u8> = (0..=255u8).collect();
    let text = bytes_to_base64(&bytes);
    assert_eq!(text.len(), 344);
    assert!(text.ends_with("+/w=="));
}
