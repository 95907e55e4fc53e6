use maprando::bps::{BPSBlock, BPSPatch, BPSPatchDecoder, FormatError, RangeError};

const TRAILER: [u8; 12] = [0xde, 0xad, 0xbe, 0xef, 1, 2, 3, 4, 5, 6, 7, 8];

/// A patch with the given block records between a header and twelve bytes
/// that stand for the checksums.
fn patch_of(records: &[u8]) -> Vec<u8> {
    let mut bytes = vec![0x42, 0x50, 0x53, 0x31, 0x80, 0x80, 0x80];
    bytes.extend_from_slice(records);
    bytes.extend_from_slice(&TRAILER);
    bytes
}

#[test]
fn empty_patch_has_no_blocks() {
    let patch = BPSPatch::new(patch_of(&[])).unwrap();
    assert!(patch.blocks().is_empty());
    assert!(patch.get_modified_ranges().is_empty());
}

#[test]
fn checksums_are_not_verified() {
    let mut bytes = vec![0x42, 0x50, 0x53, 0x31, 0x85, 0x85, 0x80, 0x84, 0x81, 0xff, 0x84];
    bytes.extend_from_slice(&[0; 12]);
    let patch = BPSPatch::new(bytes).unwrap();
    assert_eq!(patch.blocks(), &vec![BPSBlock::Data { dst_start: 2, data: vec![0xff] }]);
}

#[test]
fn unchanged_blocks_are_dropped_but_move_the_cursor() {
    // Unchanged(3), Data [9, 8], Unchanged(1), Data [7]
    let patch = BPSPatch::new(patch_of(&[0x88, 0x85, 9, 8, 0x80, 0x81, 7])).unwrap();
    assert_eq!(
        patch.blocks(),
        &vec![
            BPSBlock::Data { dst_start: 3, data: vec![9, 8] },
            BPSBlock::Data { dst_start: 6, data: vec![7] },
        ]
    );
}

#[test]
fn source_copy_offsets_are_relative_to_the_previous_copy() {
    // SourceCopy len 2 at +4; SourceCopy len 3 at -1 (from 6); SourceCopy len 1 at +0 (from 8)
    let records = [0x86, 0x88, 0x8a, 0x83, 0x82, 0x80];
    let patch = BPSPatch::new(patch_of(&records)).unwrap();
    assert_eq!(
        patch.blocks(),
        &vec![
            BPSBlock::SourceCopy { src_start: 4, dst_start: 0, length: 2 },
            BPSBlock::SourceCopy { src_start: 5, dst_start: 2, length: 3 },
            BPSBlock::SourceCopy { src_start: 8, dst_start: 5, length: 1 },
        ]
    );
}

#[test]
fn target_copy_has_a_cursor_of_its_own() {
    // SourceCopy len 1 at +7; TargetCopy len 2 at +1; TargetCopy len 1 at -3 (from 3)
    let records = [0x82, 0x8e, 0x87, 0x82, 0x83, 0x87];
    let patch = BPSPatch::new(patch_of(&records)).unwrap();
    assert_eq!(
        patch.blocks(),
        &vec![
            BPSBlock::SourceCopy { src_start: 7, dst_start: 0, length: 1 },
            BPSBlock::TargetCopy { src_start: 1, dst_start: 1, length: 2 },
            BPSBlock::TargetCopy { src_start: 0, dst_start: 3, length: 1 },
        ]
    );
}

#[test]
fn metadata_is_skipped() {
    let mut bytes = vec![0x42, 0x50, 0x53, 0x31, 0x80, 0x80, 0x83, b'a', b'b', b'c', 0x81, 0x55];
    bytes.extend_from_slice(&TRAILER);
    let patch = BPSPatch::new(bytes).unwrap();
    assert_eq!(patch.blocks(), &vec![BPSBlock::Data { dst_start: 0, data: vec![0x55] }]);
}

#[test]
fn too_short_for_the_magic_is_truncated() {
    assert_eq!(BPSPatch::new(vec![]).err(), Some(FormatError::Truncated));
    assert_eq!(BPSPatch::new(vec![0x42, 0x50, 0x53]).err(), Some(FormatError::Truncated));
}

#[test]
fn wrong_magic_is_rejected() {
    let mut bytes = patch_of(&[0x81, 0x55]);
    bytes[3] = 0x32;
    assert_eq!(BPSPatch::new(bytes).err(), Some(FormatError::BadMagic));
    let mut other = patch_of(&[]);
    other[0] = 0x00;
    assert_eq!(BPSPatch::new(other).err(), Some(FormatError::BadMagic));
}

#[test]
fn header_cut_short_is_truncated() {
    assert_eq!(BPSPatch::new(vec![0x42, 0x50, 0x53, 0x31]).err(), Some(FormatError::Truncated));
    assert_eq!(
        BPSPatch::new(vec![0x42, 0x50, 0x53, 0x31, 0x80, 0x80]).err(),
        Some(FormatError::Truncated)
    );
    assert_eq!(
        BPSPatch::new(vec![0x42, 0x50, 0x53, 0x31, 0x80, 0x00]).err(),
        Some(FormatError::Truncated)
    );
}

#[test]
fn missing_checksums_are_truncated() {
    assert_eq!(
        BPSPatch::new(vec![0x42, 0x50, 0x53, 0x31, 0x80, 0x80, 0x80]).err(),
        Some(FormatError::Truncated)
    );
    assert_eq!(
        BPSPatch::new(vec![0x42, 0x50, 0x53, 0x31, 0x80, 0x80, 0x80, 1, 2, 3, 4]).err(),
        Some(FormatError::Truncated)
    );
}

#[test]
fn header_that_runs_into_the_checksums_is_misaligned() {
    let mut bytes = vec![0x42, 0x50, 0x53, 0x31, 0x80, 0x80, 0x80];
    bytes.extend_from_slice(&[0; 11]);
    assert_eq!(BPSPatch::new(bytes).err(), Some(FormatError::Misaligned));
}

#[test]
fn metadata_longer_than_the_patch_is_misaligned() {
    let mut bytes = vec![0x42, 0x50, 0x53, 0x31, 0x80, 0x80, 0x85, b'a'];
    bytes.extend_from_slice(&TRAILER);
    assert_eq!(BPSPatch::new(bytes).err(), Some(FormatError::Misaligned));
}

#[test]
fn block_that_overruns_into_the_checksums_is_misaligned() {
    // Data of 3 bytes, of which only one stands before the checksums.
    assert_eq!(BPSPatch::new(patch_of(&[0x89, 0x11])).err(), Some(FormatError::Misaligned));
    // A source copy whose offset lies in the checksums.
    assert_eq!(BPSPatch::new(patch_of(&[0x82])).err(), Some(FormatError::Misaligned));
}

#[test]
fn block_that_overruns_the_patch_is_truncated() {
    // Data of 20 bytes: more than the patch holds.
    assert_eq!(BPSPatch::new(patch_of(&[0xcd, 0x11])).err(), Some(FormatError::Truncated));
}

#[test]
fn unterminated_number_in_a_block_is_rejected() {
    let mut bytes = vec![0x42, 0x50, 0x53, 0x31, 0x80, 0x80, 0x80];
    bytes.extend_from_slice(&[0x00; 10]);
    bytes.extend_from_slice(&TRAILER);
    assert_eq!(BPSPatch::new(bytes).err(), Some(FormatError::UnterminatedNumber));
}

#[test]
fn number_too_large_in_the_header_is_rejected() {
    let mut bytes = vec![0x42, 0x50, 0x53, 0x31];
    bytes.extend_from_slice(&[0x7f; 9]);
    bytes.push(0xff);
    bytes.extend_from_slice(&[0x80, 0x80]);
    bytes.extend_from_slice(&TRAILER);
    assert_eq!(BPSPatch::new(bytes).err(), Some(FormatError::NumberTooLarge));
}

#[test]
fn source_cursor_below_zero_is_rejected() {
    // SourceCopy len 1 at -1 from 0.
    assert_eq!(BPSPatch::new(patch_of(&[0x82, 0x83])).err(), Some(FormatError::CursorOutOfRange));
    // TargetCopy len 1 at -2 from 0.
    assert_eq!(BPSPatch::new(patch_of(&[0x83, 0x85])).err(), Some(FormatError::CursorOutOfRange));
}

#[test]
fn negative_zero_offset_is_accepted() {
    let patch = BPSPatch::new(patch_of(&[0x82, 0x81])).unwrap();
    assert_eq!(patch.blocks(), &vec![BPSBlock::SourceCopy { src_start: 0, dst_start: 0, length: 1 }]);
}

#[test]
fn decode_block_reads_one_record_at_a_time() {
    let mut decoder = BPSPatchDecoder::new(vec![0x88, 0x85, 9, 8, 0x86, 0x88, 0x87, 0x82]);
    assert_eq!(decoder.decode_block(), Ok(BPSBlock::Unchanged { dst_start: 0, length: 3 }));
    assert_eq!(decoder.decode_block(), Ok(BPSBlock::Data { dst_start: 3, data: vec![9, 8] }));
    assert_eq!(
        decoder.decode_block(),
        Ok(BPSBlock::SourceCopy { src_start: 4, dst_start: 5, length: 2 })
    );
    assert_eq!(
        decoder.decode_block(),
        Ok(BPSBlock::TargetCopy { src_start: 1, dst_start: 7, length: 2 })
    );
    assert_eq!(decoder.decode_block(), Err(FormatError::Truncated));
}

#[test]
fn failed_block_leaves_the_decoder_where_it_was() {
    let mut decoder = BPSPatchDecoder::new(vec![0x89, 1, 2]);
    assert_eq!(decoder.decode_block(), Err(FormatError::Truncated));
    assert_eq!(decoder.read(), Ok(0x89));
}

#[test]
fn decode_keeps_the_blocks_that_change_the_destination() {
    let mut decoder = BPSPatchDecoder::new(patch_of(&[0x84, 0x81, 0xff, 0x84]));
    assert_eq!(decoder.decode(), Ok(()));
    assert_eq!(
        decoder.into_blocks(),
        vec![BPSBlock::Data { dst_start: 2, data: vec![0xff] }]
    );
}

#[test]
fn apply_data_and_source_copy() {
    // Unchanged(1), Data [0xaa, 0xbb], SourceCopy len 3 from 0
    let patch = BPSPatch::new(patch_of(&[0x80, 0x85, 0xaa, 0xbb, 0x8a, 0x80])).unwrap();
    let source = [10, 11, 12, 13];
    let mut output = [10, 0, 0, 0, 0, 0, 77];
    assert_eq!(patch.apply(&source, &mut output), Ok(()));
    assert_eq!(output, [10, 0xaa, 0xbb, 10, 11, 12, 77]);
}

#[test]
fn apply_tolerates_nothing_to_do() {
    let patch = BPSPatch::new(patch_of(&[0x84])).unwrap();
    let mut output = [1, 2];
    assert_eq!(patch.apply(&[], &mut output), Ok(()));
    assert_eq!(output, [1, 2]);
}

#[test]
fn target_copy_of_one_byte_expands_a_run() {
    // Data [0xab], then TargetCopy of 5 bytes from position 0: each byte read
    // was written by the step before.
    let patch = BPSPatch::new(patch_of(&[0x81, 0xab, 0x93, 0x80])).unwrap();
    assert_eq!(
        patch.blocks(),
        &vec![
            BPSBlock::Data { dst_start: 0, data: vec![0xab] },
            BPSBlock::TargetCopy { src_start: 0, dst_start: 1, length: 5 },
        ]
    );
    let mut output = [0u8; 6];
    assert_eq!(patch.apply(&[], &mut output), Ok(()));
    assert_eq!(output, [0xab; 6]);
}

#[test]
fn target_copy_repeats_a_pattern_of_two() {
    // Data [1, 2], then TargetCopy of 5 bytes from position 0.
    let patch = BPSPatch::new(patch_of(&[0x85, 1, 2, 0x93, 0x80])).unwrap();
    let mut output = [9u8; 8];
    assert_eq!(patch.apply(&[], &mut output), Ok(()));
    assert_eq!(output, [1, 2, 1, 2, 1, 2, 1, 9]);
}

#[test]
fn target_copy_from_ahead_moves_bytes_down() {
    // TargetCopy of 3 bytes from position 2 to position 0.
    let patch = BPSPatch::new(patch_of(&[0x8b, 0x84])).unwrap();
    assert_eq!(
        patch.blocks(),
        &vec![BPSBlock::TargetCopy { src_start: 2, dst_start: 0, length: 3 }]
    );
    let mut output = [1, 2, 3, 4, 5, 6];
    assert_eq!(patch.apply(&[], &mut output), Ok(()));
    assert_eq!(output, [3, 4, 5, 4, 5, 6]);
}

#[test]
fn apply_fails_where_a_block_writes_past_the_destination() {
    let patch = BPSPatch::new(patch_of(&[0x85, 1, 2])).unwrap();
    let mut output = [0u8; 1];
    assert_eq!(patch.apply(&[], &mut output), Err(RangeError { block: 0 }));
    assert_eq!(output, [0]);
}

#[test]
fn apply_fails_where_a_block_reads_past_the_source() {
    // Data [7], then SourceCopy len 4 from 0 of a source of 3 bytes.
    let patch = BPSPatch::new(patch_of(&[0x81, 7, 0x8e, 0x80])).unwrap();
    let mut output = [0u8; 8];
    assert_eq!(patch.apply(&[1, 2, 3], &mut output), Err(RangeError { block: 1 }));
    // The first block stays applied.
    assert_eq!(output, [7, 0, 0, 0, 0, 0, 0, 0]);
}

#[test]
fn apply_fails_where_a_target_copy_reads_past_the_destination() {
    // TargetCopy of 2 bytes from position 3 to position 0, destination of 4 bytes.
    let patch = BPSPatch::new(patch_of(&[0x87, 0x86])).unwrap();
    let mut output = [1, 2, 3, 4];
    assert_eq!(patch.apply(&[], &mut output), Err(RangeError { block: 0 }));
    assert_eq!(output, [1, 2, 3, 4]);
}

#[test]
fn modified_ranges_skip_copies_in_place() {
    // SourceCopy len 2 at 0 -> 0 (in place), SourceCopy len 2 at 5 -> 2,
    // Unchanged(1), TargetCopy len 3 at 0 -> 5, Data [1] at 8.
    let records = [0x86, 0x80, 0x86, 0x86, 0x80, 0x8b, 0x80, 0x81, 1];
    let patch = BPSPatch::new(patch_of(&records)).unwrap();
    assert_eq!(
        patch.blocks(),
        &vec![
            BPSBlock::SourceCopy { src_start: 0, dst_start: 0, length: 2 },
            BPSBlock::SourceCopy { src_start: 5, dst_start: 2, length: 2 },
            BPSBlock::TargetCopy { src_start: 0, dst_start: 5, length: 3 },
            BPSBlock::Data { dst_start: 8, data: vec![1] },
        ]
    );
    assert_eq!(patch.get_modified_ranges(), vec![(2, 4), (5, 8), (8, 9)]);
}

/// The bytes of a number, written by the encoder.
fn number(n: usize) -> Vec<u8> {
    let index = maprando::bps::ScanIndex::new(vec![]);
    let mut encoder = maprando::bps::BPSPatchEncoder::new(&index, &[], &[]);
    encoder.encode_number(n);
    encoder.into_bytes()
}

#[test]
fn output_cursor_past_the_machine_is_rejected() {
    // Four unchanged blocks, each a quarter of the address space long.
    let quarter = number(usize::MAX - 3);
    let mut records = vec![];
    for _ in 0..3 {
        records.extend_from_slice(&quarter);
    }
    assert_eq!(BPSPatch::new(patch_of(&records)).map(|p| p.blocks().len()), Ok(0));
    records.extend_from_slice(&quarter);
    assert_eq!(BPSPatch::new(patch_of(&records)).err(), Some(FormatError::CursorOutOfRange));
}

#[test]
fn source_cursor_past_the_machine_is_rejected() {
    // Two source copies of one byte, each half the address space ahead.
    let far = number(usize::MAX - 1);
    let mut records = vec![0x82];
    records.extend_from_slice(&far);
    let patch = BPSPatch::new(patch_of(&records)).unwrap();
    assert_eq!(
        patch.blocks(),
        &vec![BPSBlock::SourceCopy { src_start: usize::MAX / 2, dst_start: 0, length: 1 }]
    );
    records.push(0x82);
    records.extend_from_slice(&far);
    assert_eq!(BPSPatch::new(patch_of(&records)).err(), Some(FormatError::CursorOutOfRange));
}
