use maprando::bps::{
    encode_patch, ranges_valid, BPSBlock, BPSPatch, BPSPatchEncoder, LongestMatchIndex, ScanIndex,
};

fn encode_blocks(source: &[u8], target: &[u8], ranges: &[(usize, usize)]) -> (Vec<BPSBlock>, Vec<u8>) {
    let index = ScanIndex::new(source.to_vec());
    assert!(ranges_valid(ranges, target.len()));
    let mut encoder = BPSPatchEncoder::new(&index, target, ranges);
    encoder.encode();
    let blocks = encoder.blocks().clone();
    (blocks, encoder.into_bytes())
}

/// The source cut or padded with zeros to the length of the target.
fn resized(source: &[u8], len: usize) -> Vec<u8> {
    let mut out = source.to_vec();
    out.resize(len, 0);
    out
}

/// The ranges in which `dest` and `target` differ, each as long as can be.
fn differing_ranges(dest: &[u8], target: &[u8]) -> Vec<(usize, usize)> {
    let mut ranges = vec![];
    let mut i = 0;
    while i < target.len() {
        if dest[i] != target[i] {
            let start = i;
            while i < target.len() && dest[i] != target[i] {
                i += 1;
            }
            ranges.push((start, i));
        } else {
            i += 1;
        }
    }
    ranges
}

fn round_trip(source: &[u8], target: &[u8], ranges: &[(usize, usize)]) {
    let index = ScanIndex::new(source.to_vec());
    let bytes = encode_patch(&index, target, ranges).unwrap();
    let patch = BPSPatch::new(bytes).unwrap();
    let mut output = resized(source, target.len());
    assert_eq!(patch.apply(source, &mut output), Ok(()));
    assert_eq!(output, target);
}

#[test]
fn one_changed_byte_between_unchanged_bytes() {
    let source = [0x00, 0x01, 0x02, 0x03, 0x04];
    let target = [0x00, 0x01, 0xff, 0x03, 0x04];
    let (blocks, bytes) = encode_blocks(&source, &target, &[(2, 3)]);
    assert_eq!(
        blocks,
        vec![
            BPSBlock::Unchanged { dst_start: 0, length: 2 },
            BPSBlock::Data { dst_start: 2, data: vec![0xff] },
            BPSBlock::Unchanged { dst_start: 3, length: 2 },
        ]
    );
    let mut expected = vec![0x42, 0x50, 0x53, 0x31, 0x85, 0x85, 0x80, 0x84, 0x81, 0xff, 0x84];
    expected.extend_from_slice(&crc32fast::hash(&source).to_le_bytes());
    expected.extend_from_slice(&crc32fast::hash(&target).to_le_bytes());
    let so_far = crc32fast::hash(&expected);
    expected.extend_from_slice(&so_far.to_le_bytes());
    assert_eq!(bytes, expected);

    let patch = BPSPatch::new(bytes).unwrap();
    let mut output = source;
    assert_eq!(patch.apply(&source, &mut output), Ok(()));
    assert_eq!(output, target);
}

#[test]
fn checksums_are_crc32_lowest_byte_first() {
    // The CRC-32 of "123456789" is 0xcbf43926, that of nothing is 0.
    let source = b"123456789";
    let (_, bytes) = encode_blocks(source, &[], &[]);
    let n = bytes.len();
    assert_eq!(&bytes[..7], &[0x42, 0x50, 0x53, 0x31, 0x89, 0x80, 0x80]);
    assert_eq!(n, 7 + 12);
    assert_eq!(&bytes[n - 12..n - 8], &[0x26, 0x39, 0xf4, 0xcb]);
    assert_eq!(&bytes[n - 8..n - 4], &[0, 0, 0, 0]);
    assert_eq!(&bytes[n - 4..], &crc32fast::hash(&bytes[..n - 4]).to_le_bytes());
}

#[test]
fn write_checksum_is_little_endian() {
    let index = ScanIndex::new(vec![]);
    let mut encoder = BPSPatchEncoder::new(&index, &[], &[]);
    encoder.write_checksum(0x1234_5678);
    encoder.write(0xaa);
    encoder.write_n(&[1, 2]);
    assert_eq!(encoder.patch_bytes(), &vec![0x78, 0x56, 0x34, 0x12, 0xaa, 1, 2]);
}

#[test]
fn match_of_three_bytes_becomes_a_source_copy() {
    let source = [1, 2, 3, 4, 5, 6, 7, 8];
    // The target moves 6, 7, 8 to the front.
    let target = [6, 7, 8, 4, 5, 6, 7, 8];
    let (blocks, bytes) = encode_blocks(&source, &target, &[(0, 3)]);
    assert_eq!(
        blocks,
        vec![
            BPSBlock::SourceCopy { src_start: 5, dst_start: 0, length: 3 },
            BPSBlock::Unchanged { dst_start: 3, length: 5 },
        ]
    );
    // SourceCopy len 3: command (3 - 1) * 4 + 2 = 10; offset +5 is 10.
    assert_eq!(&bytes[7..bytes.len() - 12], &[0x8a, 0x8a, 0x90]);
}

#[test]
fn match_of_two_bytes_is_written_out() {
    let source = [1, 2, 3, 4, 5, 6];
    let target = [5, 6, 3, 4, 5, 6];
    let (blocks, _) = encode_blocks(&source, &target, &[(0, 2)]);
    assert_eq!(
        blocks,
        vec![
            BPSBlock::Data { dst_start: 0, data: vec![5, 6] },
            BPSBlock::Unchanged { dst_start: 2, length: 4 },
        ]
    );
}

#[test]
fn bytes_before_a_match_are_written_out_first() {
    let source = [1, 2, 3, 4, 5, 6, 7, 8, 9];
    //            literal      match of source[1..5]   literal
    let target = [0xa0, 0xa1, 2, 3, 4, 5, 0xa2, 8, 9];
    let (blocks, bytes) = encode_blocks(&source, &target, &[(0, 7)]);
    assert_eq!(
        blocks,
        vec![
            BPSBlock::Data { dst_start: 0, data: vec![0xa0, 0xa1] },
            BPSBlock::SourceCopy { src_start: 1, dst_start: 2, length: 4 },
            BPSBlock::Data { dst_start: 6, data: vec![0xa2] },
            BPSBlock::Unchanged { dst_start: 7, length: 2 },
        ]
    );
    assert_eq!(
        &bytes[7..bytes.len() - 12],
        &[0x85, 0xa0, 0xa1, 0x8e, 0x82, 0x81, 0xa2, 0x84]
    );
}

#[test]
fn source_copy_offsets_are_signed_and_relative() {
    let source = [1, 2, 3, 4, 5, 6, 7, 8, 9];
    // First source[5..8], read cursor then at 8; then source[0..3]: offset -8;
    // then source[3..6]: cursor at 3, offset +0.
    let target = [6, 7, 8, 1, 2, 3, 4, 5, 6];
    let index = ScanIndex::new(source.to_vec());
    let ranges = [(0, 3), (3, 6), (6, 9)];
    let mut encoder = BPSPatchEncoder::new(&index, &target, &ranges);
    encoder.encode();
    assert_eq!(
        encoder.blocks(),
        &vec![
            BPSBlock::SourceCopy { src_start: 5, dst_start: 0, length: 3 },
            BPSBlock::SourceCopy { src_start: 0, dst_start: 3, length: 3 },
            BPSBlock::SourceCopy { src_start: 3, dst_start: 6, length: 3 },
        ]
    );
    let bytes = encoder.into_bytes();
    // +5 is 10, -8 is 17, +0 is 0.
    assert_eq!(
        &bytes[7..bytes.len() - 12],
        &[0x8a, 0x8a, 0x8a, 0x91, 0x8a, 0x80]
    );
    let patch = BPSPatch::new(bytes).unwrap();
    assert_eq!(
        patch.blocks(),
        &vec![
            BPSBlock::SourceCopy { src_start: 5, dst_start: 0, length: 3 },
            BPSBlock::SourceCopy { src_start: 0, dst_start: 3, length: 3 },
            BPSBlock::SourceCopy { src_start: 3, dst_start: 6, length: 3 },
        ]
    );
}

#[test]
fn no_ranges_give_one_unchanged_block() {
    let source = [1, 2, 3];
    let (blocks, _) = encode_blocks(&source, &source, &[]);
    assert_eq!(blocks, vec![BPSBlock::Unchanged { dst_start: 0, length: 3 }]);
}

#[test]
fn empty_target_gives_no_blocks() {
    let (blocks, bytes) = encode_blocks(&[1, 2, 3], &[], &[]);
    assert!(blocks.is_empty());
    assert_eq!(bytes.len(), 7 + 12);
}

#[test]
fn empty_ranges_write_nothing() {
    let source = [1, 2, 3, 4];
    let (blocks, _) = encode_blocks(&source, &source, &[(1, 1), (3, 3)]);
    assert_eq!(
        blocks,
        vec![
            BPSBlock::Unchanged { dst_start: 0, length: 1 },
            BPSBlock::Unchanged { dst_start: 1, length: 2 },
            BPSBlock::Unchanged { dst_start: 3, length: 1 },
        ]
    );
    round_trip(&source, &source, &[(1, 1), (3, 3)]);
}

#[test]
fn round_trip_of_a_longer_target() {
    let source = b"the quick brown fox";
    let target = b"the quick brown fox jumps over the quick brown dog";
    let dest = resized(source, target.len());
    let ranges = differing_ranges(&dest, target);
    assert_eq!(ranges, vec![(19, 50)]);
    round_trip(source, target, &ranges);
}

#[test]
fn round_trip_of_a_shorter_target() {
    let source = b"the quick brown fox jumps over the lazy dog";
    let target = b"the slick brown fax";
    let dest = resized(source, target.len());
    let ranges = differing_ranges(&dest, target);
    assert_eq!(ranges, vec![(4, 6), (17, 18)]);
    round_trip(source, target, &ranges);
}

#[test]
fn round_trip_with_ranges_wider_than_the_difference() {
    let source = b"0123456789abcdefghij";
    let target = b"0123456789ABCDefghij";
    round_trip(source, target, &[(8, 16)]);
    round_trip(source, target, &[(0, 20)]);
    round_trip(source, target, &[(0, 5), (5, 12), (12, 20)]);
}

#[test]
fn round_trip_of_many_generated_pairs() {
    // A small generator of its own, so that the pairs are the same every time.
    let mut state: u32 = 0x2545_f491;
    let mut next = move || {
        state ^= state << 13;
        state ^= state >> 17;
        state ^= state << 5;
        state
    };
    for _ in 0..200 {
        let source_len = (next() % 40) as usize;
        let target_len = (next() % 40) as usize;
        let source: Vec<u8> = (0..source_len).map(|_| (next() % 4) as u8).collect();
        let mut target = resized(&source, target_len);
        for byte in target.iter_mut() {
            if next() % 3 == 0 {
                *byte = (next() % 4) as u8 + 1;
            }
        }
        let dest = resized(&source, target_len);
        let ranges = differing_ranges(&dest, &target);
        round_trip(&source, &target, &ranges);
    }
}

#[test]
fn blocks_that_write_lie_within_the_ranges() {
    let source = b"aaaabbbbccccddddeeeeffff";
    let target = b"aaaaddddccccXYZbeeeeaaaa";
    let ranges = [(4, 8), (12, 16), (20, 24)];
    let (blocks, bytes) = encode_blocks(source, target, &ranges);
    for block in &blocks {
        let (start, end) = match block {
            BPSBlock::Unchanged { .. } => continue,
            BPSBlock::SourceCopy { dst_start, length, .. } => (*dst_start, dst_start + length),
            BPSBlock::TargetCopy { dst_start, length, .. } => (*dst_start, dst_start + length),
            BPSBlock::Data { dst_start, data } => (*dst_start, dst_start + data.len()),
        };
        assert!(ranges.iter().any(|r| r.0 <= start && end <= r.1));
    }
    let patch = BPSPatch::new(bytes).unwrap();
    for (start, end) in patch.get_modified_ranges() {
        assert!(ranges.iter().any(|r| r.0 <= start && end <= r.1));
    }
}

#[test]
fn bytes_outside_the_ranges_are_left_alone_for_any_source() {
    let source = b"aaaabbbbccccddddeeeeffff";
    let target = b"aaaaddddccccXYZbeeeeaaaa";
    let ranges = [(4, 8), (12, 16), (20, 24)];
    let (_, bytes) = encode_blocks(source, target, &ranges);
    let patch = BPSPatch::new(bytes).unwrap();
    // Another source, the same outside the ranges.
    let other = b"aaaa....cccc....eeee....";
    let mut output = other.to_vec();
    assert_eq!(patch.apply(other, &mut output), Ok(()));
    for i in 0..target.len() {
        if !ranges.iter().any(|r| r.0 <= i && i < r.1) {
            assert_eq!(output[i], target[i]);
        }
    }
    // A destination of anything at all keeps its bytes outside the ranges.
    let mut scratch = vec![0x5a; target.len()];
    assert_eq!(patch.apply(source, &mut scratch), Ok(()));
    assert_eq!(&scratch[0..4], &[0x5a; 4]);
    assert_eq!(&scratch[8..12], &[0x5a; 4]);
    assert_eq!(&scratch[16..20], &[0x5a; 4]);
    assert_eq!(&scratch[4..8], b"dddd");
}

#[test]
fn patches_over_disjoint_ranges_can_be_layered() {
    let source = b"0123456789abcdefghijklmnopqrstuvwxyz".to_vec();
    let mut first_target = source.clone();
    first_target[3..7].copy_from_slice(b"wxyz");
    let mut second_target = source.clone();
    second_target[20..23].copy_from_slice(b"AAA");
    let index = ScanIndex::new(source.clone());
    let first = BPSPatch::new(encode_patch(&index, &first_target, &[(3, 7)]).unwrap()).unwrap();
    let second = BPSPatch::new(encode_patch(&index, &second_target, &[(20, 23)]).unwrap()).unwrap();
    let mut output = source.clone();
    assert_eq!(first.apply(&source, &mut output), Ok(()));
    assert_eq!(second.apply(&source, &mut output), Ok(()));
    let mut expected = source.clone();
    expected[3..7].copy_from_slice(b"wxyz");
    expected[20..23].copy_from_slice(b"AAA");
    assert_eq!(output, expected);
}

#[test]
fn encoder_never_copies_from_the_target() {
    // A target full of repetition, which a copy from the target would suit.
    let source = [0u8; 4];
    let target = [7u8; 64];
    let (blocks, bytes) = encode_blocks(&source, &target, &[(0, 64)]);
    assert!(blocks.iter().all(|b| !matches!(b, BPSBlock::TargetCopy { .. })));
    assert_eq!(blocks, vec![BPSBlock::Data { dst_start: 0, data: vec![7u8; 64] }]);
    let patch = BPSPatch::new(bytes).unwrap();
    assert!(patch.blocks().iter().all(|b| !matches!(b, BPSBlock::TargetCopy { .. })));
}

#[test]
fn invalid_ranges_are_refused() {
    let index = ScanIndex::new(vec![1, 2, 3]);
    let target = [1, 2, 3, 4];
    assert!(encode_patch(&index, &target, &[(2, 1)]).is_none());
    assert!(encode_patch(&index, &target, &[(0, 5)]).is_none());
    assert!(encode_patch(&index, &target, &[(2, 3), (0, 1)]).is_none());
    assert!(encode_patch(&index, &target, &[(0, 2), (1, 3)]).is_none());
    assert!(encode_patch(&index, &target, &[(0, 2), (2, 4)]).is_some());
}

#[test]
fn ranges_valid_on_examples() {
    assert!(ranges_valid(&[], 0));
    assert!(ranges_valid(&[(0, 0)], 0));
    assert!(ranges_valid(&[(0, 3), (3, 3), (3, 7)], 7));
    assert!(!ranges_valid(&[(0, 3), (2, 7)], 7));
    assert!(!ranges_valid(&[(0, 8)], 7));
    assert!(!ranges_valid(&[(4, 3)], 7));
    assert!(!ranges_valid(&[(5, 6), (1, 2)], 7));
}

#[test]
fn scan_index_finds_the_first_longest_match() {
    let index = ScanIndex::new(b"abcabcdabcde".to_vec());
    assert_eq!(index.data(), b"abcabcdabcde");
    assert_eq!(index.lookup(b"abcdx"), (3, 4));
    assert_eq!(index.lookup(b"abcde"), (7, 5));
    assert_eq!(index.lookup(b"abc"), (0, 3));
    assert_eq!(index.lookup(b"xyz"), (0, 0));
    assert_eq!(index.lookup(b""), (0, 0));
    assert_eq!(index.lookup(b"e"), (11, 1));
    assert_eq!(ScanIndex::new(vec![]).lookup(b"abc"), (0, 0));
}

#[test]
fn encoder_methods_write_one_record_each() {
    let index = ScanIndex::new(vec![0; 16]);
    let target = [0u8; 16];
    let mut encoder = BPSPatchEncoder::new(&index, &target, &[]);
    encoder.encode_block_header(2, 5);
    assert_eq!(encoder.patch_bytes(), &vec![0x92]);
    encoder.encode_unchanged(3);
    encoder.encode_data(&[9, 8]);
    encoder.encode_source_copy(4, 2);
    encoder.encode_source_copy(1, 2);
    assert_eq!(
        encoder.blocks(),
        &vec![
            BPSBlock::Unchanged { dst_start: 0, length: 3 },
            BPSBlock::Data { dst_start: 3, data: vec![9, 8] },
            BPSBlock::SourceCopy { src_start: 4, dst_start: 5, length: 2 },
            BPSBlock::SourceCopy { src_start: 1, dst_start: 7, length: 2 },
        ]
    );
    // Unchanged 3: 8; Data 2: 5; SourceCopy 2: 6, offset +4: 8; offset 1 - 6 = -5: 11.
    assert_eq!(
        encoder.patch_bytes(),
        &vec![0x92, 0x88, 0x85, 9, 8, 0x86, 0x88, 0x86, 0x8b]
    );
}

#[test]
fn encode_range_accounts_for_the_gap_before_it() {
    let source = [1, 2, 3, 4, 5, 6, 7, 8];
    let target = [1, 2, 0xee, 0xee, 5, 6, 7, 8];
    let index = ScanIndex::new(source.to_vec());
    let mut encoder = BPSPatchEncoder::new(&index, &target, &[]);
    encoder.encode_range(2, 4);
    assert_eq!(
        encoder.blocks(),
        &vec![
            BPSBlock::Unchanged { dst_start: 0, length: 2 },
            BPSBlock::Data { dst_start: 2, data: vec![0xee, 0xee] },
        ]
    );
    assert_eq!(encoder.patch_bytes(), &vec![0x84, 0x85, 0xee, 0xee]);
}
