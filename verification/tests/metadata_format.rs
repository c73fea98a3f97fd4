use part::{parse_split_info, serialize_split_info, CombineError, SplitInfo};

fn sample() -> SplitInfo {
    SplitInfo {
        filename: "data.bin".to_string(),
        number_of_parts: 3,
        hash: 824863398,
        part_hashes: vec![2659403885, 1171689434, 1361897475],
    }
}

#[test]
fn metadata_round_trips_field_for_field() {
    let info = sample();
    let doc = serialize_split_info(&info);
    let back = parse_split_info(&doc).expect("well-formed document should parse");
    assert_eq!(back.filename, info.filename);
    assert_eq!(back.number_of_parts, info.number_of_parts);
    assert_eq!(back.hash, info.hash);
    assert_eq!(back.part_hashes, info.part_hashes);
}

#[test]
fn metadata_round_trip_is_idempotent() {
    let info = sample();
    let doc1 = serialize_split_info(&info);
    let back1 = parse_split_info(&doc1).expect("should parse");
    let doc2 = serialize_split_info(&back1);
    assert_eq!(doc1, doc2);
    let back2 = parse_split_info(&doc2).expect("should parse");
    assert_eq!(back2.filename, back1.filename);
    assert_eq!(back2.number_of_parts, back1.number_of_parts);
    assert_eq!(back2.hash, back1.hash);
    assert_eq!(back2.part_hashes, back1.part_hashes);
}

#[test]
fn metadata_document_is_exactly_as_documented() {
    let info = SplitInfo {
        filename: "f".to_string(),
        number_of_parts: 1,
        hash: 5,
        part_hashes: vec![7],
    };
    let doc = serialize_split_info(&info);
    assert_eq!(doc, "partinfo\n00000000000000000001\n0000000005\n0000000007\nf");
}

#[test]
fn filename_with_unusual_characters_round_trips() {
    let info = SplitInfo {
        filename: "we ird\nname.with.dots ".to_string(),
        number_of_parts: 2,
        hash: 1,
        part_hashes: vec![0, u32::MAX],
    };
    let doc = serialize_split_info(&info);
    let back = parse_split_info(&doc).expect("should parse");
    assert_eq!(back.filename, info.filename);
    assert_eq!(back.part_hashes, info.part_hashes);
}

#[test]
fn empty_filename_round_trips() {
    let info = SplitInfo {
        filename: String::new(),
        number_of_parts: 1,
        hash: 42,
        part_hashes: vec![42],
    };
    let doc = serialize_split_info(&info);
    let back = parse_split_info(&doc).expect("should parse");
    assert_eq!(back.filename, "");
    assert_eq!(back.number_of_parts, 1);
}

#[test]
fn accepted_documents_are_canonical() {
    let doc = "partinfo\n00000000000000000002\n0000000005\n0000000007\n4294967295\nsome name";
    let info = parse_split_info(doc).expect("should parse");
    assert_eq!(info.number_of_parts, 2);
    assert_eq!(info.hash, 5);
    assert_eq!(info.part_hashes, vec![7, u32::MAX]);
    assert_eq!(info.filename, "some name");
    assert_eq!(serialize_split_info(&info), doc);
}

#[test]
fn garbage_documents_are_rejected() {
    for doc in ["", "hello", "partinfo\n", "partinfo\nnot a number at all......."] {
        let r = parse_split_info(doc);
        assert!(matches!(r, Err(CombineError::MetadataCorrupt)));
    }
}

#[test]
fn tampered_documents_are_rejected() {
    let doc = serialize_split_info(&sample());
    let with_bad_digit = doc.replacen('0', "x", 1);
    assert!(matches!(parse_split_info(&with_bad_digit), Err(CombineError::MetadataCorrupt)));
    let truncated = &doc[..doc.len() - 20];
    assert!(matches!(parse_split_info(truncated), Err(CombineError::MetadataCorrupt)));
    let wrong_magic = doc.replacen("partinfo", "partINFO", 1);
    assert!(matches!(parse_split_info(&wrong_magic), Err(CombineError::MetadataCorrupt)));
}

#[test]
fn zero_part_count_is_rejected() {
    let doc = "partinfo\n00000000000000000000\n0000000005\nf";
    assert!(matches!(parse_split_info(doc), Err(CombineError::MetadataCorrupt)));
}

#[test]
fn oversized_checksum_is_rejected() {
    // 9999999999 does not fit in 32 bits.
    let doc = "partinfo\n00000000000000000001\n9999999999\n0000000007\nf";
    assert!(matches!(parse_split_info(doc), Err(CombineError::MetadataCorrupt)));
}
