use record_time_index::civil::CivilTime;
use record_time_index::index_tree::IndexSegment;
use record_time_index::link_tag::{decode_link_tag_timestamp, u64_to_be_bytes, TimeIndexingError};

// the tag layout: namespace bytes, one zero byte, 8 big-endian time bytes
fn tag_of(namespace: &str, ts_ms: u64) -> Vec<u8> {
    let mut tag = namespace.as_bytes().to_vec();
    tag.push(0);
    tag.extend_from_slice(&u64_to_be_bytes(ts_ms));
    tag
}

#[test]
fn tag_for_index_produces_the_documented_layout() {
    // 1970-01-02T03:04:05.678Z is 97445678 ms after the epoch
    let t = CivilTime::new(1970, 1, 2, 3, 4, 5, 678).unwrap();
    let seg = IndexSegment::leafmost_link(&t);
    let tag = seg.tag_for_index(&b"a".to_vec());
    assert_eq!(tag, tag_of("a", 97_445_678));
    assert_eq!(decode_link_tag_timestamp(&tag), Ok(97_445_678));
}

#[test]
fn tag_layout_is_namespace_zero_byte_big_endian_time() {
    let tag = tag_of("a", 1);
    assert_eq!(tag, vec![0x61, 0, 0, 0, 0, 0, 0, 0, 0, 1]);
}

#[test]
fn round_trip_returns_the_exact_timestamp() {
    for &ts in [0u64, 1, 255, 256, 1_677_628_800_000, u64::MAX].iter() {
        let tag = tag_of("observed_events", ts);
        assert_eq!(decode_link_tag_timestamp(&tag), Ok(ts));
    }
}

#[test]
fn round_trip_with_empty_namespace() {
    let tag = tag_of("", 42);
    assert_eq!(tag.len(), 9);
    assert_eq!(decode_link_tag_timestamp(&tag), Ok(42));
}

#[test]
fn decoded_segment_holds_the_encoded_time() {
    let tag = tag_of("idx", 97_445_678);
    let seg = IndexSegment::try_from_tag(&tag).unwrap();
    assert_eq!(seg.timestamp(), 97_445_678);
}

#[test]
fn tag_without_zero_byte_is_malformed() {
    let bytes: Vec<u8> = vec![1, 2, 3, 4, 5, 6, 7, 8, 9, 10];
    assert_eq!(
        decode_link_tag_timestamp(&bytes),
        Err(TimeIndexingError::Malformed(bytes.clone()))
    );
    assert!(IndexSegment::try_from_tag(&bytes).is_err());
}

#[test]
fn tag_with_short_trailing_segment_is_malformed() {
    let mut bytes: Vec<u8> = b"idx".to_vec();
    bytes.push(0);
    bytes.extend_from_slice(&[1, 2, 3, 4, 5, 6, 7]);
    assert_eq!(
        decode_link_tag_timestamp(&bytes),
        Err(TimeIndexingError::Malformed(bytes.clone()))
    );
}

#[test]
fn tag_with_long_trailing_segment_is_malformed() {
    let mut bytes: Vec<u8> = b"idx".to_vec();
    bytes.push(0);
    bytes.extend_from_slice(&[1, 2, 3, 4, 5, 6, 7, 8, 9]);
    assert_eq!(
        decode_link_tag_timestamp(&bytes),
        Err(TimeIndexingError::Malformed(bytes.clone()))
    );
}

#[test]
fn empty_tag_is_malformed() {
    let bytes: Vec<u8> = Vec::new();
    assert_eq!(
        decode_link_tag_timestamp(&bytes),
        Err(TimeIndexingError::Malformed(Vec::new()))
    );
}

#[test]
fn trailing_bytes_may_contain_zero_bytes() {
    // the separator is the first zero byte; zeros inside the 8 time bytes are data
    let tag = tag_of("ns", 256);
    assert_eq!(decode_link_tag_timestamp(&tag), Ok(256));
}

#[test]
fn big_endian_bytes_are_most_significant_first() {
    assert_eq!(u64_to_be_bytes(0x0102_0304_0506_0708), vec![1, 2, 3, 4, 5, 6, 7, 8]);
    assert_eq!(u64_to_be_bytes(0), vec![0; 8]);
    assert_eq!(u64_to_be_bytes(u64::MAX), vec![0xFF; 8]);
}

#[test]
fn tags_sort_like_their_timestamps() {
    let times = [0u64, 1, 255, 256, 65_535, 1_677_628_800_000, u64::MAX - 1, u64::MAX];
    let mut previous: Option<Vec<u8>> = None;
    for &ts in times.iter() {
        let tag = tag_of("same_namespace", ts);
        if let Some(prev) = previous {
            assert!(prev < tag, "tags must sort like their timestamps");
        }
        previous = Some(tag);
    }
}
