use maprando::bps::{
    encode_patch, BPSBlock, BPSPatch, BPSPatchEncoder, LongestMatchIndex, ScanIndex, TrigramIndex,
};

#[test]
fn trigram_index_finds_the_last_longest_match() {
    let index = TrigramIndex::new(b"abcabcdabcde".to_vec());
    assert_eq!(index.data(), b"abcabcdabcde");
    assert_eq!(index.lookup(b"abcdx"), (7, 4));
    assert_eq!(index.lookup(b"abcde"), (7, 5));
    assert_eq!(index.lookup(b"abc"), (7, 3));
    assert_eq!(index.lookup(b"abca"), (0, 4));
    assert_eq!(index.lookup(b"bcd"), (8, 3));
    assert_eq!(index.lookup(b"cde"), (9, 3));
    assert_eq!(index.lookup(b"cdefgh"), (9, 3));
}

#[test]
fn trigram_index_reports_no_match_below_three_bytes() {
    let index = TrigramIndex::new(b"abcabcdabcde".to_vec());
    assert_eq!(index.lookup(b""), (0, 0));
    assert_eq!(index.lookup(b"a"), (0, 0));
    assert_eq!(index.lookup(b"ab"), (0, 0));
    assert_eq!(index.lookup(b"abx"), (0, 0));
    assert_eq!(index.lookup(b"dex"), (0, 0));
    assert_eq!(index.lookup(b"xyz"), (0, 0));
}

#[test]
fn trigram_index_over_short_sources() {
    assert_eq!(TrigramIndex::new(vec![]).lookup(b"abc"), (0, 0));
    assert_eq!(TrigramIndex::new(b"ab".to_vec()).lookup(b"abc"), (0, 0));
    assert_eq!(TrigramIndex::new(b"abc".to_vec()).lookup(b"abc"), (0, 3));
    assert_eq!(TrigramIndex::new(b"abc".to_vec()).lookup(b"abcd"), (0, 3));
}

#[test]
fn trigram_index_over_repeated_bytes() {
    let index = TrigramIndex::new(vec![0; 10]);
    assert_eq!(index.lookup(&[0; 4]), (6, 4));
    assert_eq!(index.lookup(&[0; 10]), (0, 10));
    assert_eq!(index.lookup(&[0; 12]), (0, 10));
    assert_eq!(index.lookup(&[0, 0, 0, 1]), (7, 3));
}

#[test]
fn both_indexes_agree_on_the_length_of_useful_matches() {
    let mut state: u32 = 0x9e37_79b9;
    let mut next = move || {
        state ^= state << 13;
        state ^= state >> 17;
        state ^= state << 5;
        state
    };
    for _ in 0..100 {
        let source_len = (next() % 60) as usize;
        let source: Vec<u8> = (0..source_len).map(|_| (next() % 3) as u8).collect();
        let scan = ScanIndex::new(source.clone());
        let trigram = TrigramIndex::new(source.clone());
        for _ in 0..20 {
            let query_len = (next() % 12) as usize;
            let query: Vec<u8> = (0..query_len).map(|_| (next() % 3) as u8).collect();
            let (scan_offset, scan_length) = scan.lookup(&query);
            let (offset, length) = trigram.lookup(&query);
            if scan_length >= 3 {
                assert_eq!(length, scan_length);
                assert!(offset >= scan_offset);
                assert_eq!(&source[offset..offset + length], &query[..length]);
            } else {
                assert_eq!((offset, length), (0, 0));
            }
        }
    }
}

#[test]
fn patches_made_with_either_index_have_the_same_effect() {
    let source = b"the quick brown fox jumps over the lazy dog".to_vec();
    let target = b"the lazy  brown dog jumps over the quick fox!!".to_vec();
    // "quick" against "lazy ", "fox" against "dog", and all from "lazy dog" on.
    let ranges = [(4, 9), (16, 19), (35, 46)];
    let scan = ScanIndex::new(source.clone());
    let trigram = TrigramIndex::new(source.clone());
    let with_scan = BPSPatch::new(encode_patch(&scan, &target, &ranges).unwrap()).unwrap();
    let with_trigram = BPSPatch::new(encode_patch(&trigram, &target, &ranges).unwrap()).unwrap();
    for patch in [with_scan, with_trigram] {
        let mut output = source.clone();
        output.resize(target.len(), 0);
        assert_eq!(patch.apply(&source, &mut output), Ok(()));
        assert_eq!(output, target);
    }
}

#[test]
fn trigram_index_drives_the_encoder() {
    let source = [1, 2, 3, 4, 5, 6, 7, 8, 9];
    let target = [0xa0, 0xa1, 2, 3, 4, 5, 0xa2, 8, 9];
    let index = TrigramIndex::new(source.to_vec());
    let ranges = [(0, 7)];
    let mut encoder = BPSPatchEncoder::new(&index, &target, &ranges);
    encoder.encode();
    assert_eq!(
        encoder.blocks(),
        &vec![
            BPSBlock::Data { dst_start: 0, data: vec![0xa0, 0xa1] },
            BPSBlock::SourceCopy { src_start: 1, dst_start: 2, length: 4 },
            BPSBlock::Data { dst_start: 6, data: vec![0xa2] },
            BPSBlock::Unchanged { dst_start: 7, length: 2 },
        ]
    );
}
