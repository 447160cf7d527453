use chrono::{TimeZone, Utc};
use record_time_index::civil::CivilTime;
use record_time_index::index_tree::{get_index_segments, truncate, IndexConfig, IndexSegment, IndexType};

fn civil(year: u16, month: u8, day: u8, hour: u8, minute: u8, second: u8, milli: u16) -> CivilTime {
    CivilTime::new(year, month, day, hour, minute, second, milli).unwrap()
}

fn full_config() -> IndexConfig {
    IndexConfig {
        year: true,
        month: true,
        day: true,
        hour: true,
        minute: true,
        second: true,
        chunk_interval_ms: 30_000,
        has_chunk_leaves: true,
    }
}

#[test]
fn march_first_truncates_to_month_boundary() {
    let t = civil(2023, 3, 1, 0, 0, 0, 0);
    let month = IndexSegment::new(&t, &IndexType::Month);
    assert_eq!(month.timestamp(), 1_677_628_800_000);
}

#[test]
fn march_first_is_already_at_day_boundary() {
    let t = civil(2023, 3, 1, 0, 0, 0, 0);
    let day = IndexSegment::new(&t, &IndexType::Day);
    assert_eq!(day.timestamp(), 1_677_628_800_000);
}

#[test]
fn march_first_truncates_to_year_start() {
    let t = civil(2023, 3, 1, 0, 0, 0, 0);
    let year = IndexSegment::new(&t, &IndexType::Year);
    assert_eq!(year.timestamp(), 1_672_531_200_000);
}

#[test]
fn truncation_twice_equals_truncation_once() {
    let t = civil(2024, 2, 29, 23, 59, 58, 999);
    let granularities = [
        IndexType::Year,
        IndexType::Month,
        IndexType::Day,
        IndexType::Hour,
        IndexType::Minute,
        IndexType::Second,
    ];
    for g in granularities.iter() {
        let once = truncate(&t, g);
        let twice = truncate(&once, g);
        assert_eq!(once, twice);
        assert_eq!(
            IndexSegment::new(&t, g).timestamp(),
            IndexSegment::new(&once, g).timestamp()
        );
    }
}

#[test]
fn chunk_stays_within_bounds_and_on_grid() {
    // 1970-01-01T00:00:12.345Z is 12345 ms after the epoch
    let t = civil(1970, 1, 1, 0, 0, 12, 345);
    let base: u64 = 1_000;
    let interval: u64 = 1_000;
    let chunk = IndexSegment::new_chunk(base, &t, interval);
    assert_eq!(chunk.timestamp(), 12_000);
    assert!(base <= chunk.timestamp());
    assert!(chunk.timestamp() <= 12_345);
    assert_eq!((chunk.timestamp() - base) % interval, 0);
}

#[test]
fn chunk_on_exact_boundary_is_that_boundary() {
    // 1970-01-01T00:00:30Z is 30000 ms after the epoch
    let t = civil(1970, 1, 1, 0, 0, 30, 0);
    let chunk = IndexSegment::new_chunk(0, &t, 30_000);
    assert_eq!(chunk.timestamp(), 30_000);
}

#[test]
fn leafmost_link_keeps_exact_millisecond() {
    let t = civil(1970, 1, 2, 3, 4, 5, 678);
    let leaf = IndexSegment::leafmost_link(&t);
    assert_eq!(leaf.timestamp(), 97_445_678);
}

#[test]
fn segments_run_coarse_to_fine_with_chunk_leaf() {
    let t = civil(2023, 3, 1, 10, 25, 47, 500);
    let segments = get_index_segments(&t, &full_config());
    assert_eq!(segments.len(), 7);
    let times: Vec<u64> = segments.iter().map(|s| s.timestamp()).collect();
    let base = 1_677_628_800_000u64; // 2023-03-01T00:00:00Z
    assert_eq!(times[0], 1_672_531_200_000); // year
    assert_eq!(times[1], base); // month
    assert_eq!(times[2], base); // day (the 1st)
    assert_eq!(times[3], base + 10 * 3_600_000); // hour
    assert_eq!(times[4], base + 10 * 3_600_000 + 25 * 60_000); // minute
    assert_eq!(times[5], base + 10 * 3_600_000 + 25 * 60_000 + 47_000); // second
    // chunk, based off the finest emitted segment: 500 ms into the
    // second bucket rounds down to the bucket start itself
    assert_eq!(times[6], times[5]);
    // segments never decrease
    for w in times.windows(2) {
        assert!(w[0] <= w[1]);
    }
}

#[test]
fn chunk_leaf_floors_within_the_finest_bucket() {
    let t = civil(2023, 3, 1, 10, 25, 47, 500);
    let cfg = IndexConfig {
        year: true,
        month: true,
        day: true,
        hour: true,
        minute: true,
        second: false,
        chunk_interval_ms: 30_000,
        has_chunk_leaves: true,
    };
    let segments = get_index_segments(&t, &cfg);
    assert_eq!(segments.len(), 6);
    let minute = 1_677_628_800_000u64 + 10 * 3_600_000 + 25 * 60_000;
    assert_eq!(segments[4].timestamp(), minute);
    // 47.5 s into the minute bucket floors to the 30 s grid line
    assert_eq!(segments[5].timestamp(), minute + 30_000);
}

#[test]
fn disabled_granularities_are_skipped() {
    let t = civil(2023, 3, 1, 10, 25, 47, 500);
    let cfg = IndexConfig {
        year: true,
        month: false,
        day: true,
        hour: false,
        minute: false,
        second: false,
        chunk_interval_ms: 0,
        has_chunk_leaves: false,
    };
    let segments = get_index_segments(&t, &cfg);
    assert_eq!(segments.len(), 2);
    assert_eq!(segments[0].timestamp(), 1_672_531_200_000);
    assert_eq!(segments[1].timestamp(), 1_677_628_800_000);
}

#[test]
fn calendar_validation_rejects_impossible_moments() {
    assert!(CivilTime::new(2023, 2, 30, 0, 0, 0, 0).is_none());
    assert!(CivilTime::new(2023, 2, 29, 0, 0, 0, 0).is_none());
    assert!(CivilTime::new(2024, 2, 29, 0, 0, 0, 0).is_some());
    assert!(CivilTime::new(2023, 0, 1, 0, 0, 0, 0).is_none());
    assert!(CivilTime::new(2023, 13, 1, 0, 0, 0, 0).is_none());
    assert!(CivilTime::new(2023, 1, 0, 0, 0, 0, 0).is_none());
    assert!(CivilTime::new(1969, 12, 31, 0, 0, 0, 0).is_none());
    assert!(CivilTime::new(2023, 6, 15, 24, 0, 0, 0).is_none());
    assert!(CivilTime::new(2023, 6, 15, 23, 60, 0, 0).is_none());
    assert!(CivilTime::new(2023, 6, 15, 23, 59, 60, 0).is_none());
    assert!(CivilTime::new(2023, 6, 15, 23, 59, 59, 1000).is_none());
    assert!(CivilTime::new(2023, 6, 15, 23, 59, 59, 999).is_some());
}

#[test]
fn timestamps_agree_with_the_calendar_library() {
    let samples = [
        (1970u16, 1u8, 1u8, 0u8, 0u8, 0u8, 0u16),
        (1999, 12, 31, 23, 59, 59, 999),
        (2000, 2, 29, 12, 0, 0, 0),
        (2023, 3, 1, 10, 25, 47, 500),
        (2100, 2, 28, 6, 30, 15, 250),
        (9999, 12, 31, 23, 59, 59, 999),
    ];
    for &(y, mo, d, h, mi, s, ms) in samples.iter() {
        let t = civil(y, mo, d, h, mi, s, ms);
        let expected = Utc
            .with_ymd_and_hms(y as i32, mo as u32, d as u32, h as u32, mi as u32, s as u32)
            .unwrap()
            .timestamp_millis() as u64 + ms as u64;
        assert_eq!(IndexSegment::leafmost_link(&t).timestamp(), expected);
    }
}
