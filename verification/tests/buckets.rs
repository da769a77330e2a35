//! Tests of a single day bucket: the overlap test, its boundaries, the
//! neighbor fallback, and clearing.

use geostore::bucket::{BucketName, DailyBucket};
use geostore::geohash::{ghash, neighbors, GeoError, GeoLocationTime};
use geostore::hotspotmap::HotspotMap;

fn obs(geohash: &str, timestamp_ms: u64) -> GeoLocationTime {
    GeoLocationTime { geohash: String::from(geohash), timestamp_ms }
}

#[test]
fn overlap_window_is_inclusive_on_both_ends() {
    let mut bucket = DailyBucket::new();
    bucket.insert_data_point(obs("u4pruydqq", 1_000));
    let key = String::from("u4pruydqq");
    // a stored point reaches from its own time to `period` later
    assert!(!bucket._does_time_overlap(&key, 999, 500));
    assert!(bucket._does_time_overlap(&key, 1_000, 500));
    assert!(bucket._does_time_overlap(&key, 1_500, 500));
    assert!(!bucket._does_time_overlap(&key, 1_501, 500));
    // an unknown key simply does not overlap
    assert!(!bucket._does_time_overlap(&String::from("drh5dcg0b"), 1_000, 500));
}

#[test]
fn match_pos_falls_back_to_the_neighbors() {
    let g = ghash(-730_000_000, 400_000_000).unwrap();
    let east = neighbors(&g).unwrap()[2].clone();
    let mut bucket = DailyBucket::new();
    bucket.insert_data_point(obs(east.as_str(), 1_000));
    // no overlap at the exact key, but the stored point sits one cell east
    assert!(!bucket._does_time_overlap(&g, 1_100, 500));
    assert_eq!(bucket.match_pos(&g, 1_100, 500), Ok(true));
    // out of the time window nothing matches, neighbors included
    assert_eq!(bucket.match_pos(&g, 2_000, 500), Ok(false));
}

#[test]
fn match_pos_rejects_a_malformed_key() {
    let mut bucket = DailyBucket::new();
    bucket.insert_data_point(obs("u4pruydqq", 1_000));
    assert_eq!(bucket.match_pos(&String::from("not a key"), 1_000, 500), Err(GeoError::Decoding));
    // unless the exact key already overlaps: then no decoding is needed
    bucket.insert_data_point(obs("not a key", 1_000));
    assert_eq!(bucket.match_pos(&String::from("not a key"), 1_000, 500), Ok(true));
}

#[test]
fn clear_drops_everything() {
    let mut bucket = DailyBucket::new();
    bucket.insert_data_point(obs("u4pruydqq", 1_000));
    bucket.insert_data_point(obs("drh5dcg0b", 2_000));
    assert_eq!(bucket.locations.len(), 2);
    bucket.clear();
    assert_eq!(bucket.locations.len(), 0);
    assert!(!bucket._does_time_overlap(&String::from("u4pruydqq"), 1_000, 500));
}

#[test]
fn slot_names_are_fourteen_and_distinct() {
    let names = BucketName::iterator();
    assert_eq!(names.len(), 14);
    let mut i = 0;
    while i < names.len() {
        assert_eq!(names[i].index(), i);
        i += 1;
    }
}

#[test]
fn hotzone_membership_is_visible() {
    let mut map = HotspotMap::new();
    assert!(!map._in_hotzones(&String::from("u4pruyd")));
    map.insert_data_point(String::from("u4pruydqq"));
    assert!(map._in_hotzones(&String::from("u4pruyd")));
    assert!(!map._in_hotzones(&String::from("u4pruydqq")));
}
