use maprando::bps::{BPSPatchDecoder, BPSPatchEncoder, FormatError, ScanIndex};

fn written(n: usize) -> Vec<u8> {
    let index = ScanIndex::new(vec![]);
    let target: Vec<u8> = vec![];
    let ranges: Vec<(usize, usize)> = vec![];
    let mut encoder = BPSPatchEncoder::new(&index, &target, &ranges);
    encoder.encode_number(n);
    encoder.into_bytes()
}

fn read(bytes: &[u8]) -> Result<usize, FormatError> {
    BPSPatchDecoder::new(bytes.to_vec()).decode_number()
}

#[test]
fn number_zero_is_one_terminal_byte() {
    assert_eq!(written(0), vec![0x80]);
}

#[test]
fn number_127_is_one_byte() {
    assert_eq!(written(127), vec![0xff]);
}

#[test]
fn number_128_takes_two_bytes() {
    assert_eq!(written(128), vec![0x00, 0x80]);
}

#[test]
fn number_16511_is_the_largest_of_two_bytes() {
    assert_eq!(written(16511), vec![0x7f, 0xff]);
}

#[test]
fn number_16512_takes_three_bytes() {
    assert_eq!(written(16512), vec![0x00, 0x00, 0x80]);
}

#[test]
fn number_300_exact_bytes() {
    // 300 = 44 + 128 * (1 + 1)
    assert_eq!(written(300), vec![44, 0x81]);
}

#[test]
fn read_adds_one_per_continued_group() {
    // 5 + 128 * (1 + 1) = 261
    assert_eq!(read(&[0x05, 0x81]), Ok(261));
    // 0 + 128 * (0 + 1) = 128
    assert_eq!(read(&[0x00, 0x80]), Ok(128));
}

#[test]
fn numbers_round_trip() {
    let samples: [usize; 14] = [
        0,
        1,
        127,
        128,
        129,
        255,
        256,
        16511,
        16512,
        65535,
        1 << 20,
        (1 << 32) - 1,
        usize::MAX - 1,
        usize::MAX,
    ];
    for n in samples {
        let bytes = written(n);
        assert!(bytes.len() <= 10);
        assert_eq!(read(&bytes), Ok(n));
    }
}

#[test]
fn numbers_round_trip_over_a_dense_range() {
    for n in 0..40000usize {
        assert_eq!(read(&written(n)), Ok(n));
    }
}

#[test]
fn numbers_have_one_encoding_each() {
    // All sequences of one and two bytes that read as a number give distinct values.
    let mut seen = std::collections::HashSet::new();
    for a in 0x80..=0xffu8 {
        let v = read(&[a]).unwrap();
        assert!(seen.insert(v));
    }
    for a in 0x00..0x80u8 {
        for b in 0x80..=0xffu8 {
            let v = read(&[a, b]).unwrap();
            assert!(seen.insert(v));
        }
    }
    assert_eq!(seen.len(), 128 + 128 * 128);
}

#[test]
fn reading_moves_behind_the_number_only() {
    let mut decoder = BPSPatchDecoder::new(vec![0x05, 0x81, 0x83, 0x80]);
    assert_eq!(decoder.decode_number(), Ok(261));
    assert_eq!(decoder.decode_number(), Ok(3));
    assert_eq!(decoder.decode_number(), Ok(0));
    assert_eq!(decoder.decode_number(), Err(FormatError::Truncated));
}

#[test]
fn number_cut_short_is_truncated() {
    assert_eq!(read(&[]), Err(FormatError::Truncated));
    assert_eq!(read(&[0x00, 0x00]), Err(FormatError::Truncated));
}

#[test]
fn number_without_terminal_in_ten_groups_is_rejected() {
    assert_eq!(read(&[0x00; 10]), Err(FormatError::UnterminatedNumber));
    assert_eq!(read(&[0x00; 11]), Err(FormatError::UnterminatedNumber));
    let mut late = vec![0x00; 10];
    late.push(0x80);
    assert_eq!(read(&late), Err(FormatError::UnterminatedNumber));
}

#[test]
fn number_of_ten_groups_is_accepted() {
    let mut bytes = vec![0x00; 9];
    bytes.push(0x80);
    // 128 + 128^2 + ... + 128^9
    let mut expected: u128 = 0;
    let mut weight: u128 = 1;
    for _ in 0..9 {
        weight *= 128;
        expected += weight;
    }
    if expected <= usize::MAX as u128 {
        assert_eq!(read(&bytes), Ok(expected as usize));
    } else {
        assert_eq!(read(&bytes), Err(FormatError::NumberTooLarge));
    }
}

#[test]
fn number_beyond_the_machine_is_rejected() {
    let mut bytes = vec![0x7f; 9];
    bytes.push(0xff);
    assert_eq!(read(&bytes), Err(FormatError::NumberTooLarge));
}

#[test]
fn failed_read_leaves_the_decoder_where_it_was() {
    let mut decoder = BPSPatchDecoder::new(vec![0x83, 0x00, 0x00]);
    assert_eq!(decoder.decode_number(), Ok(3));
    assert_eq!(decoder.decode_number(), Err(FormatError::Truncated));
    assert_eq!(decoder.read(), Ok(0x00));
    assert_eq!(decoder.read_n(2), Err(FormatError::Truncated));
    assert_eq!(decoder.read_n(1), Ok(vec![0x00]));
    assert_eq!(decoder.read(), Err(FormatError::Truncated));
}
