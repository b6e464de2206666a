use mmoreseqs::bytes::{bytes_eq, copy_bytes, parse_u64, split_lines, tokenize};
use mmoreseqs::extract::{
    accession_of, decode_stride_record, extract_mmseqs_profile_consensus_sequences, ExtractError,
};
use mmoreseqs::store::{FlatStoreIndex, StoreError};

fn lines_of(s: &str) -> Vec<Vec<u8>> {
    s.lines().map(|l| l.as_bytes().to_vec()).collect()
}

#[test]
fn parse_u64_reads_decimal() {
    assert_eq!(parse_u64(&b"12345".to_vec()), Some(12345));
    assert_eq!(parse_u64(&b"0".to_vec()), Some(0));
    assert_eq!(parse_u64(&b"007".to_vec()), Some(7));
    assert_eq!(parse_u64(&b"18446744073709551615".to_vec()), Some(u64::MAX));
}

#[test]
fn parse_u64_rejects_bad_tokens() {
    assert_eq!(parse_u64(&b"".to_vec()), None);
    assert_eq!(parse_u64(&b"12a".to_vec()), None);
    assert_eq!(parse_u64(&b"-3".to_vec()), None);
    assert_eq!(parse_u64(&b"18446744073709551616".to_vec()), None);
}

#[test]
fn tokenize_splits_on_whitespace() {
    let toks = tokenize(&b"  a\tbb  c ".to_vec());
    assert_eq!(toks, vec![b"a".to_vec(), b"bb".to_vec(), b"c".to_vec()]);
    assert_eq!(tokenize(&b"   ".to_vec()), Vec::<Vec<u8>>::new());
}

#[test]
fn split_lines_matches_buffered_reading() {
    let ls = split_lines(&b"ab\r\ncd\nef".to_vec());
    assert_eq!(ls, vec![b"ab".to_vec(), b"cd".to_vec(), b"ef".to_vec()]);
    // a trailing line feed yields no final empty line
    let ls2 = split_lines(&b"x\n".to_vec());
    assert_eq!(ls2, vec![b"x".to_vec()]);
}

#[test]
fn byte_helpers_compare_and_copy() {
    let a = b"acc".to_vec();
    let b = copy_bytes(&a);
    assert!(bytes_eq(&a, &b));
    assert!(!bytes_eq(&a, &b"ac".to_vec()));
}

#[test]
fn index_parse_places_records_by_id() {
    // the index file carries a redundant id; lines may arrive out of order
    let ix = FlatStoreIndex::parse(&lines_of("1 10 8\n0 0 10")).unwrap();
    assert_eq!(ix.len(), 2);
    assert_eq!(ix.entries[0].offset, 0);
    assert_eq!(ix.entries[0].length, 10);
    assert_eq!(ix.entries[1].offset, 10);
    assert_eq!(ix.entries[1].length, 8);
}

#[test]
fn index_parse_rejects_malformed_lines() {
    match FlatStoreIndex::parse(&lines_of("0 0 10\n1 10")) {
        Err(StoreError::MalformedIndexLine { line_number }) => assert_eq!(line_number, 2),
        other => panic!("expected a malformed-line error, got {:?}", other),
    }
    match FlatStoreIndex::parse(&lines_of("x 0 1")) {
        Err(StoreError::MalformedIndexLine { line_number }) => assert_eq!(line_number, 1),
        other => panic!("expected a malformed-line error, got {:?}", other),
    }
    // exactly three fields are required
    match FlatStoreIndex::parse(&lines_of("0 0 1 9")) {
        Err(StoreError::MalformedIndexLine { line_number }) => assert_eq!(line_number, 1),
        other => panic!("expected a malformed-line error, got {:?}", other),
    }
}

#[test]
fn index_parse_rejects_duplicate_ids() {
    match FlatStoreIndex::parse(&lines_of("0 0 1\n0 2 3")) {
        Err(StoreError::DuplicateRecordId { line_number }) => assert_eq!(line_number, 2),
        other => panic!("expected a duplicate-id error, got {:?}", other),
    }
}

#[test]
fn index_parse_rejects_out_of_range_ids() {
    match FlatStoreIndex::parse(&lines_of("5 0 1")) {
        Err(StoreError::RecordIdOutOfRange { line_number }) => assert_eq!(line_number, 1),
        other => panic!("expected an out-of-range error, got {:?}", other),
    }
}

#[test]
fn read_record_returns_exact_span_and_is_repeatable() {
    let data: Vec<u8> = (0u8..18).collect();
    let ix = FlatStoreIndex::parse(&lines_of("0 0 10\n1 10 8")).unwrap();
    let r0 = ix.read_record(&data, 0).unwrap();
    assert_eq!(r0.len(), 10);
    assert_eq!(r0, (0u8..10).collect::<Vec<u8>>());
    let r0_again = ix.read_record(&data, 0).unwrap();
    assert_eq!(r0, r0_again);
    let r1 = ix.read_record(&data, 1).unwrap();
    assert_eq!(r1, (10u8..18).collect::<Vec<u8>>());
}

#[test]
fn read_record_rejects_short_reads_and_unknown_ids() {
    let data: Vec<u8> = (0u8..8).collect();
    let ix = FlatStoreIndex::parse(&lines_of("0 0 10")).unwrap();
    match ix.read_record(&data, 0) {
        Err(StoreError::ShortRead { record_id }) => assert_eq!(record_id, 0),
        other => panic!("expected a short-read error, got {:?}", other),
    }
    match ix.read_record(&data, 7) {
        Err(StoreError::NoSuchRecord { record_id }) => assert_eq!(record_id, 7),
        other => panic!("expected a no-such-record error, got {:?}", other),
    }
}

#[test]
fn accession_is_prefix_up_to_first_whitespace() {
    assert_eq!(accession_of(&b"ACC123 some description".to_vec()), Some(b"ACC123".to_vec()));
    // a tab terminates too, and the whitespace byte itself is excluded
    assert_eq!(accession_of(&b"P\t".to_vec()), Some(b"P".to_vec()));
    // leading whitespace gives an empty accession
    assert_eq!(accession_of(&b" X".to_vec()), Some(b"".to_vec()));
    assert_eq!(accession_of(&b"NOWHITESPACE".to_vec()), None);
}

#[test]
fn stride_decoding_is_total_and_positional() {
    // 2 whole strides plus a 5-byte partial stride that is discarded
    let mut record: Vec<u8> = vec![0; 23 * 2 + 5];
    record[23 * 0 + 21] = 42;
    record[23 * 1 + 21] = 77;
    let out = decode_stride_record(&record);
    assert_eq!(out.len(), 2);
    assert_eq!(out[0], 42);
    assert_eq!(out[1], 77);
    // fewer bytes than one stride decode to nothing
    assert_eq!(decode_stride_record(&vec![0; 22]).len(), 0);
}

#[test]
fn extractor_finds_accession_boundaries_exactly() {
    // two header records: bytes 0-9 end in a space at byte 9,
    // bytes 10-17 end in a space at byte 17
    let mut header_data = Vec::new();
    header_data.extend_from_slice(b"ACCESSION ");
    header_data.extend_from_slice(b"ACC0002 ");
    assert_eq!(header_data.len(), 18);
    let header_index = lines_of("0 0 10\n1 10 8");
    // one whole stride per primary record
    let mut primary_data = vec![0u8; 46];
    primary_data[21] = 5;
    primary_data[23 + 21] = 9;
    let primary_index = lines_of("0 0 23\n1 23 23");
    let out = extract_mmseqs_profile_consensus_sequences(
        &header_index,
        &header_data,
        &primary_index,
        &primary_data,
    )
    .unwrap();
    assert_eq!(out.len(), 2);
    assert_eq!(out[0].0, b"ACCESSION".to_vec());
    assert_eq!(out[1].0, b"ACC0002".to_vec());
    assert_eq!(out[0].1, vec![5]);
    assert_eq!(out[1].1, vec![9]);
}

#[test]
fn extractor_reports_header_without_whitespace() {
    let header_data = b"NOSPACEHER".to_vec();
    let header_index = lines_of("0 0 10");
    let primary_data = vec![0u8; 23];
    let primary_index = lines_of("0 0 23");
    match extract_mmseqs_profile_consensus_sequences(
        &header_index,
        &header_data,
        &primary_index,
        &primary_data,
    ) {
        Err(ExtractError::HeaderWithoutWhitespace { record_id }) => assert_eq!(record_id, 0),
        other => panic!("expected a header-decode error, got {:?}", other),
    }
}

#[test]
fn extractor_reports_a_short_primary_read() {
    let header_data = b"A B".to_vec();
    let header_index = lines_of("0 0 3");
    // the primary index claims more bytes than the data holds
    let primary_data = vec![0u8; 10];
    let primary_index = lines_of("0 0 23");
    match extract_mmseqs_profile_consensus_sequences(
        &header_index,
        &header_data,
        &primary_index,
        &primary_data,
    ) {
        Err(ExtractError::Primary(StoreError::ShortRead { record_id })) => {
            assert_eq!(record_id, 0)
        },
        other => panic!("expected a primary short-read error, got {:?}", other),
    }
}

#[test]
fn extractor_propagates_header_index_errors() {
    let header_data = b"A B".to_vec();
    let header_index = lines_of("0 zero 3");
    let primary_data = vec![0u8; 23];
    let primary_index = lines_of("0 0 23");
    match extract_mmseqs_profile_consensus_sequences(
        &header_index,
        &header_data,
        &primary_index,
        &primary_data,
    ) {
        Err(ExtractError::Header(StoreError::MalformedIndexLine { line_number })) => {
            assert_eq!(line_number, 1)
        },
        other => panic!("expected a header index error, got {:?}", other),
    }
}

#[test]
fn extractor_reports_count_mismatch() {
    let header_data = b"A B".to_vec();
    let header_index = lines_of("0 0 3");
    let primary_data = vec![0u8; 46];
    let primary_index = lines_of("0 0 23\n1 23 23");
    match extract_mmseqs_profile_consensus_sequences(
        &header_index,
        &header_data,
        &primary_index,
        &primary_data,
    ) {
        Err(ExtractError::RecordCountMismatch { header_records, primary_records }) => {
            assert_eq!(header_records, 1);
            assert_eq!(primary_records, 2);
        },
        other => panic!("expected a count-mismatch error, got {:?}", other),
    }
}
