use part::{combine_parts, split_content, CombineError, SplitError, SplitOptions};

fn split_ok(content: &[u8], options: SplitOptions) -> (Vec<Vec<u8>>, part::SplitInfo) {
    split_content("data.bin", &content.to_vec(), &options).expect("split should succeed")
}

#[test]
fn seven_bytes_by_count_three() {
    let (parts, info) = split_ok(b"abcdefg", SplitOptions::NumberOfParts(3));
    assert_eq!(parts.len(), 3);
    assert_eq!(parts[0], b"ab".to_vec());
    assert_eq!(parts[1], b"cd".to_vec());
    assert_eq!(parts[2], b"efg".to_vec());
    assert_eq!(info.number_of_parts, 3);
    assert_eq!(info.filename, "data.bin".to_string());
    assert_eq!(info.hash, 824863398);
    assert_eq!(info.part_hashes, vec![2659403885, 1171689434, 1361897475]);
    let combined = combine_parts(&parts, &info).expect("combine should succeed");
    assert_eq!(combined, b"abcdefg".to_vec());
}

#[test]
fn whole_file_checksum_matches_reference() {
    let (_, info) = split_ok(b"abcdefg", SplitOptions::NumberOfParts(1));
    assert_eq!(info.hash, crc32fast::hash(b"abcdefg"));
    assert_eq!(info.hash, 824863398);
}

#[test]
fn ten_bytes_by_size_three_yields_three_parts() {
    let (parts, info) = split_ok(b"0123456789", SplitOptions::SizeOfParts(3));
    assert_eq!(parts.len(), 3);
    assert_eq!(info.number_of_parts, 3);
    assert_eq!(parts[0].len(), 3);
    assert_eq!(parts[1].len(), 3);
    assert_eq!(parts[2].len(), 4);
    assert_eq!(parts[0], b"012".to_vec());
    assert_eq!(parts[1], b"345".to_vec());
    assert_eq!(parts[2], b"6789".to_vec());
}

#[test]
fn round_trip_by_count_all_valid_counts() {
    let content = b"abcdefg";
    for n in 1..=7 {
        let (parts, info) = split_ok(content, SplitOptions::NumberOfParts(n));
        assert_eq!(parts.len(), n);
        let combined = combine_parts(&parts, &info).expect("combine should succeed");
        assert_eq!(combined, content.to_vec());
    }
}

#[test]
fn round_trip_by_size_all_valid_sizes() {
    let content = b"abcdefg";
    for s in 1..=7 {
        let (parts, info) = split_ok(content, SplitOptions::SizeOfParts(s));
        assert_eq!(parts.len(), 7 / s);
        let combined = combine_parts(&parts, &info).expect("combine should succeed");
        assert_eq!(combined, content.to_vec());
    }
}

#[test]
fn bit_flip_in_any_part_is_detected() {
    let content = b"the quick brown fox jumps over the lazy dog";
    let (parts, info) = split_ok(content, SplitOptions::NumberOfParts(4));
    for i in 0..parts.len() {
        for bit in 0..8 {
            let mut tampered = parts.clone();
            tampered[i][0] ^= 1u8 << bit;
            let r = combine_parts(&tampered, &info);
            assert_eq!(r, Err(CombineError::PartChecksumMismatch(i)));
        }
    }
}

#[test]
fn reordered_parts_fail_whole_file_checksum() {
    let (parts, info) = split_ok(b"abcd", SplitOptions::NumberOfParts(2));
    let swapped_parts = vec![parts[1].clone(), parts[0].clone()];
    let mut swapped_info = info.clone();
    swapped_info.part_hashes = vec![info.part_hashes[1], info.part_hashes[0]];
    let r = combine_parts(&swapped_parts, &swapped_info);
    assert_eq!(r, Err(CombineError::WholeFileChecksumMismatch));
}

#[test]
fn substituted_part_with_matching_own_checksum_fails_whole_file() {
    let (parts, info) = split_ok(b"abcd", SplitOptions::NumberOfParts(2));
    let substituted = vec![parts[0].clone(), b"zz".to_vec()];
    let mut subst_info = info.clone();
    subst_info.part_hashes = vec![info.part_hashes[0], crc32fast::hash(b"zz")];
    let r = combine_parts(&substituted, &subst_info);
    assert_eq!(r, Err(CombineError::WholeFileChecksumMismatch));
}

#[test]
fn empty_file_is_invalid_partitioning() {
    let empty: Vec<u8> = Vec::new();
    let r = split_content("empty", &empty, &SplitOptions::NumberOfParts(3));
    assert!(matches!(r, Err(SplitError::InvalidPartitioning)));
    let r = split_content("empty", &empty, &SplitOptions::SizeOfParts(1));
    assert!(matches!(r, Err(SplitError::InvalidPartitioning)));
}

#[test]
fn oversized_part_size_is_invalid_partitioning() {
    let r = split_content("small", &b"abc".to_vec(), &SplitOptions::SizeOfParts(5));
    assert!(matches!(r, Err(SplitError::InvalidPartitioning)));
}

#[test]
fn zero_counts_are_invalid_partitioning() {
    let content = b"abc".to_vec();
    let r = split_content("f", &content, &SplitOptions::NumberOfParts(0));
    assert!(matches!(r, Err(SplitError::InvalidPartitioning)));
    let r = split_content("f", &content, &SplitOptions::SizeOfParts(0));
    assert!(matches!(r, Err(SplitError::InvalidPartitioning)));
}

#[test]
fn more_parts_than_bytes_still_round_trips() {
    let content = b"ab";
    let (parts, info) = split_ok(content, SplitOptions::NumberOfParts(5));
    assert_eq!(parts.len(), 5);
    assert_eq!(parts[0].len(), 0);
    assert_eq!(parts[4], b"ab".to_vec());
    let combined = combine_parts(&parts, &info).expect("combine should succeed");
    assert_eq!(combined, content.to_vec());
}
