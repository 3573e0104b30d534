use dedup_core::errors::Error;

#[test]
fn describe_corruption_names_both_digests() {
    let e = Error::Corrupted { expected: vec![0x00, 0xff], actual: vec![0xab] };
    assert_eq!(e.describe(), "00ff corrupted, data read: ab");
}

#[test]
fn describe_not_found_names_the_digest() {
    let e = Error::NotFound { digest: vec![0x01, 0xcd] };
    assert_eq!(e.describe(), "couldn't find chunk: 01cd");
}

#[test]
fn describe_truncated_index() {
    assert_eq!(Error::TruncatedIndex.describe(), "index data truncated");
}
