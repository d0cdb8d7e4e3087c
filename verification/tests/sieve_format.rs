use sorex::binary::sieve::{
    decode_block_pfor, decode_postings, decode_postings_v6, encode_block_pfor, encode_postings,
    encode_postings_v6, PostingEntry, SieveFooter, SieveHeader, SIEVE_VERSION,
};
use sorex::binary::{FormatFlags, BLOCK_SIZE};
use sorex::error::FormatError;

#[test]
fn test_block_pfor_roundtrip() {
    let deltas: [u32; BLOCK_SIZE] = std::array::from_fn(|i| (i * 2 + 1) as u32);
    let mut buf = Vec::new();
    encode_block_pfor(&deltas, &mut buf);
    let (decoded, _) = decode_block_pfor(&buf).unwrap();
    assert_eq!(decoded.len(), BLOCK_SIZE);
    for i in 0..BLOCK_SIZE {
        assert_eq!(decoded[i], deltas[i]);
    }
}

#[test]
fn test_block_pfor_uniform() {
    let deltas: [u32; BLOCK_SIZE] = [42; BLOCK_SIZE];
    let mut buf = Vec::new();
    encode_block_pfor(&deltas, &mut buf);
    let (decoded, _) = decode_block_pfor(&buf).unwrap();
    assert_eq!(decoded, deltas.to_vec());
}

#[test]
fn binary_test_postings_roundtrip() {
    let doc_ids: Vec<u32> = (0..500).map(|i| i * 3).collect();
    let mut buf = Vec::new();
    encode_postings(&doc_ids, &mut buf);
    let (decoded, _) = decode_postings(&buf).unwrap();
    assert_eq!(decoded, doc_ids);
}

#[test]
fn binary_test_header_roundtrip() {
    let header = SieveHeader {
        version: SIEVE_VERSION,
        flags: FormatFlags::new().with_skip_lists(),
        doc_count: 1000,
        term_count: 500,
        vocab_len: 2048,
        sa_len: 4096,
        postings_len: 8192,
        skip_len: 512,
        section_table_len: 256,
        lev_dfa_len: 1200,
        docs_len: 5000,
        wasm_len: 50000,
        dict_table_len: 1024,
    };

    let mut buf = Vec::new();
    header.write(&mut buf);
    assert_eq!(buf.len(), SieveHeader::SIZE);

    let decoded = SieveHeader::read(&buf).unwrap();
    assert_eq!(decoded.version, header.version);
    assert_eq!(decoded.doc_count, header.doc_count);
    assert_eq!(decoded.term_count, header.term_count);
    assert_eq!(decoded.section_table_len, header.section_table_len);
    assert_eq!(decoded.lev_dfa_len, header.lev_dfa_len);
    assert_eq!(decoded.docs_len, header.docs_len);
    assert_eq!(decoded.wasm_len, header.wasm_len);
    assert_eq!(decoded.dict_table_len, header.dict_table_len);
    assert!(decoded.flags.has_skip_lists());
}

#[test]
fn pfor_block_exact_bytes() {
    // Values 5 and 6 alternate: minimum 5, one bit each, 0b10101010 per byte.
    let deltas: [u32; BLOCK_SIZE] = std::array::from_fn(|i| 5 + (i % 2) as u32);
    let mut buf = Vec::new();
    encode_block_pfor(&deltas, &mut buf);
    assert_eq!(buf.len(), 2 + 16);
    assert_eq!(buf[0], 5);
    assert_eq!(buf[1], 1);
    assert!(buf[2..].iter().all(|&b| b == 0xAA));
}

#[test]
fn pfor_block_wide_values() {
    let deltas: [u32; BLOCK_SIZE] = std::array::from_fn(|i| if i == 7 { u32::MAX } else { i as u32 * 1000 });
    let mut buf = vec![9, 9];
    encode_block_pfor(&deltas, &mut buf);
    assert_eq!(&buf[0..2], &[9, 9]);
    let (decoded, used) = decode_block_pfor(&buf[2..]).unwrap();
    assert_eq!(used, buf.len() - 2);
    assert_eq!(decoded, deltas.to_vec());
}

#[test]
fn pfor_block_errors() {
    assert_eq!(decode_block_pfor(&[]).unwrap_err(), FormatError::EmptyVarint);
    assert_eq!(decode_block_pfor(&[3]).unwrap_err(), FormatError::TruncatedPforBlock);
    assert_eq!(decode_block_pfor(&[3, 33]).unwrap_err(), FormatError::InvalidBitsPerValue);
    assert_eq!(decode_block_pfor(&[3, 2, 0, 0]).unwrap_err(), FormatError::TruncatedPforData);
    // Minimum u32::MAX plus a one-bit value of 1 leaves the u32 range.
    let mut data = vec![0xFF, 0xFF, 0xFF, 0xFF, 0x0F, 1];
    data.extend(std::iter::repeat(0xFF).take(16));
    assert_eq!(decode_block_pfor(&data).unwrap_err(), FormatError::PforValueOverflow);
}

#[test]
fn pfor_block_zero_bits() {
    let (decoded, used) = decode_block_pfor(&[7, 0, 99]).unwrap();
    assert_eq!(used, 2);
    assert_eq!(decoded, vec![7u32; BLOCK_SIZE]);
}

#[test]
fn postings_with_tail_and_blocks() {
    let doc_ids: Vec<u32> = (0..300).map(|i| i * i).collect();
    let mut buf = Vec::new();
    encode_postings(&doc_ids, &mut buf);
    let (decoded, used) = decode_postings(&buf).unwrap();
    assert_eq!(decoded, doc_ids);
    assert_eq!(used, buf.len());
}

#[test]
fn postings_empty_and_errors() {
    let mut buf = Vec::new();
    encode_postings(&[], &mut buf);
    assert_eq!(buf, vec![0]);
    assert_eq!(decode_postings(&buf).unwrap(), (vec![], 1));
    assert_eq!(decode_postings(&[1]).unwrap_err(), FormatError::TruncatedPostings);
    assert_eq!(decode_postings(&[1, 1]).unwrap_err(), FormatError::TruncatedPostingBlocks);
    assert_eq!(decode_postings(&[1, 0]).unwrap_err(), FormatError::MissingPostingTail);
    assert_eq!(decode_postings(&[1, 0, 1]).unwrap_err(), FormatError::TruncatedPostingTail);
    assert_eq!(decode_postings(&[0x81, 0xDB, 0x98, 0x05]).unwrap_err(), FormatError::PostingListTooLarge);
    assert_eq!(
        decode_postings(&[2, 0, 2, 0xFF, 0xFF, 0xFF, 0xFF, 0x0F, 1]).unwrap_err(),
        FormatError::DocIdOverflow
    );
}

#[test]
fn postings_v6_roundtrip() {
    let entries: Vec<PostingEntry> = (0..200u32)
        .map(|i| PostingEntry { doc_id: i * 2, section_idx: i % 5 })
        .collect();
    let mut buf = Vec::new();
    encode_postings_v6(&entries, &mut buf);
    let (decoded, used) = decode_postings_v6(&buf).unwrap();
    assert_eq!(decoded, entries);
    assert_eq!(used, buf.len());
}

#[test]
fn postings_v6_truncated_section_index() {
    let entries = vec![PostingEntry { doc_id: 4, section_idx: 2 }];
    let mut buf = Vec::new();
    encode_postings_v6(&entries, &mut buf);
    buf.pop();
    assert_eq!(decode_postings_v6(&buf).unwrap_err(), FormatError::TruncatedSectionIndex);
}

#[test]
fn sieve_header_rejects_bad_input() {
    assert_eq!(SieveHeader::read(&[0x53, 0x49]).unwrap_err(), FormatError::TruncatedHeader);
    assert_eq!(SieveHeader::read(b"SORX").unwrap_err(), FormatError::InvalidMagic);
    assert_eq!(SieveHeader::read(b"SIFT\x07").unwrap_err(), FormatError::TruncatedHeader);
}

#[test]
fn sieve_footer_roundtrip() {
    let data = b"Hello, world!".to_vec();
    let crc = SieveFooter::compute_crc32(&data);
    let mut buf = data.clone();
    SieveFooter { crc32: crc }.write(&mut buf);
    assert_eq!(&buf[buf.len() - 4..], b"TFIS");
    let footer = SieveFooter::read(&buf).unwrap();
    assert_eq!(footer.crc32, crc);
    assert_eq!(crc, crc32fast::hash(&data));
    assert_eq!(SieveFooter::read(&buf[..buf.len() - 1]).unwrap_err(), FormatError::InvalidFooterMagic);
    assert_eq!(SieveFooter::read(&[0; 7]).unwrap_err(), FormatError::FooterTooShort);
}
