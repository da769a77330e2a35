//! Tests of the hotspot tracker: counting, the top list, symmetry, and the
//! tie-break behavior at the eviction boundary.

use geostore::hotspotmap::{HotSpot, HotspotMap};

fn count_of(map: &HotspotMap, coarse_key: &str) -> Option<u32> {
    let mut i = 0;
    while i < map.locations.len() {
        if map.locations[i].0 == coarse_key {
            return Some(map.locations[i].1);
        }
        i += 1;
    }
    None
}

fn power_of(map: &HotspotMap, coarse_key: &str) -> Option<u32> {
    let mut i = 0;
    while i < map.hotzones.len() {
        if map.hotzones[i].geo_location == coarse_key {
            return Some(map.hotzones[i].power);
        }
        i += 1;
    }
    None
}

fn assert_sorted_desc(zones: &Vec<HotSpot>) {
    let mut i = 1;
    while i < zones.len() {
        assert!(zones[i - 1].power >= zones[i].power);
        i += 1;
    }
}

#[test]
fn fresh_tracker_has_ten_placeholders() {
    let map = HotspotMap::new();
    assert_eq!(map.locations.len(), 0);
    let top = map.get_top_hotspots();
    assert_eq!(top.len(), 10);
    let mut i = 0;
    while i < 10 {
        assert_eq!(top[i].geo_location, "");
        assert_eq!(top[i].power, 0);
        i += 1;
    }
}

#[test]
fn keys_are_truncated_to_the_coarse_cell() {
    let mut map = HotspotMap::new();
    map.insert_data_point(String::from("drh5dcg0b"));
    map.insert_data_point(String::from("drh5dcg77"));
    assert_eq!(count_of(&map, "drh5dcg"), Some(2));
    assert_eq!(count_of(&map, "drh5dcg0b"), None);
}

#[test]
fn repeated_insertion_counts_up_and_reaches_the_top() {
    let mut map = HotspotMap::new();
    let mut n = 0;
    while n < 5 {
        map.insert_data_point(String::from("u4pruydqq"));
        n += 1;
    }
    assert_eq!(count_of(&map, "u4pruyd"), Some(5));
    assert_eq!(power_of(&map, "u4pruyd"), Some(5));
    assert_sorted_desc(&map.get_top_hotspots());
}

#[test]
fn insert_then_remove_restores_the_tracker() {
    let mut map = HotspotMap::new();
    let mut n = 0;
    while n < 3 {
        map.insert_data_point(String::from("u4pruydqq"));
        n += 1;
    }
    map.insert_data_point(String::from("drh5dcg0b"));
    let counts_before: Vec<(String, u32)> = map.locations.clone();
    let top_before = map.get_top_hotspots();

    map.insert_data_point(String::from("u4pruydqq"));
    map.remove_data_point(&String::from("u4pruydqq"));

    assert_eq!(map.locations.len(), counts_before.len());
    let mut i = 0;
    while i < counts_before.len() {
        assert_eq!(count_of(&map, counts_before[i].0.as_str()), Some(counts_before[i].1));
        i += 1;
    }
    let top_after = map.get_top_hotspots();
    assert_eq!(top_after.len(), top_before.len());
    let mut j = 0;
    while j < top_before.len() {
        assert_eq!(top_after[j].geo_location, top_before[j].geo_location);
        assert_eq!(top_after[j].power, top_before[j].power);
        j += 1;
    }
}

#[test]
fn removal_does_not_go_below_zero() {
    let mut map = HotspotMap::new();
    map.insert_data_point(String::from("u4pruydqq"));
    map.remove_data_point(&String::from("u4pruydqq"));
    map.remove_data_point(&String::from("u4pruydqq"));
    assert_eq!(count_of(&map, "u4pruyd"), Some(0));
    map.remove_data_point(&String::from("ezs42xxxx"));
    assert_eq!(count_of(&map, "ezs42xx"), None);
}

#[test]
fn a_tie_with_the_weakest_entry_is_not_promoted() {
    let mut map = HotspotMap::new();
    // ten distinct cells fill the list with power one each
    let cells = vec![
        "s000000aa", "s000001aa", "s000002aa", "s000003aa", "s000004aa", "s000005aa", "s000006aa",
        "s000007aa", "s000008aa", "s000009aa",
    ];
    let mut i = 0;
    while i < cells.len() {
        map.insert_data_point(String::from(cells[i]));
        i += 1;
    }
    assert_eq!(power_of(&map, "s000004"), Some(1));
    // an eleventh cell reaching the same count as the weakest entry stays out
    map.insert_data_point(String::from("u4pruydqq"));
    assert_eq!(count_of(&map, "u4pruyd"), Some(1));
    assert_eq!(power_of(&map, "u4pruyd"), None);
    // one more observation beats the weakest entry and promotes the cell
    map.insert_data_point(String::from("u4pruydqq"));
    assert_eq!(power_of(&map, "u4pruyd"), Some(2));
    assert_sorted_desc(&map.get_top_hotspots());
}
