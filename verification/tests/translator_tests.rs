use dedup_core::translator::IndexTranslator;

/// Feed `bytes` split at the given sizes; collect every record completed.
fn feed_in_pieces(bytes: &[u8], sizes: &[usize]) -> (Vec<Vec<u8>>, usize) {
    let mut t = IndexTranslator::new();
    let mut records = Vec::new();
    let mut pos = 0;
    for &s in sizes {
        let end = pos + s;
        if s > 0 {
            records.extend(t.write(&bytes[pos..end]));
        }
        pos = end;
    }
    assert_eq!(pos, bytes.len());
    (records, t.buffered_len())
}

fn stream_of(len: usize) -> Vec<u8> {
    (0..len).map(|i| (i % 251) as u8).collect()
}

#[test]
fn translator_single_full_record() {
    let bytes = stream_of(32);
    let mut t = IndexTranslator::new();
    let records = t.write(&bytes);
    assert_eq!(records.len(), 1);
    assert_eq!(records[0], bytes);
    assert_eq!(t.buffered_len(), 0);
}

#[test]
fn translator_short_write_buffers() {
    let bytes = stream_of(31);
    let mut t = IndexTranslator::new();
    let records = t.write(&bytes);
    assert!(records.is_empty());
    assert_eq!(t.buffered_len(), 31);
}

#[test]
fn translator_remainder_stays_buffered() {
    let bytes = stream_of(40);
    let mut t = IndexTranslator::new();
    let records = t.write(&bytes);
    assert_eq!(records.len(), 1);
    assert_eq!(records[0], &bytes[..32]);
    assert_eq!(t.buffered_len(), 8);
}

#[test]
fn translator_byte_at_a_time_matches_whole() {
    let bytes = stream_of(100 * 32);
    let mut whole = IndexTranslator::new();
    let expected = whole.write(&bytes);
    assert_eq!(expected.len(), 100);

    let sizes: Vec<usize> = vec![1; bytes.len()];
    let (records, rem) = feed_in_pieces(&bytes, &sizes);
    assert_eq!(records, expected);
    assert_eq!(rem, 0);
}

#[test]
fn translator_unaligned_splits_match_whole() {
    let bytes = stream_of(96);
    let mut whole = IndexTranslator::new();
    let expected = whole.write(&bytes);
    assert_eq!(expected.len(), 3);

    let (records, rem) = feed_in_pieces(&bytes, &[5, 27, 31, 33]);
    assert_eq!(records, expected);
    assert_eq!(rem, 0);

    let (records2, rem2) = feed_in_pieces(&bytes, &[63, 1, 32]);
    assert_eq!(records2, expected);
    assert_eq!(rem2, 0);
}

#[test]
fn translator_splits_with_leftover_match() {
    let bytes = stream_of(70);
    let mut whole = IndexTranslator::new();
    let expected = whole.write(&bytes);
    let whole_rem = whole.buffered_len();
    assert_eq!(expected.len(), 2);
    assert_eq!(whole_rem, 6);

    let (records, rem) = feed_in_pieces(&bytes, &[33, 33, 4]);
    assert_eq!(records, expected);
    assert_eq!(rem, whole_rem);
}
