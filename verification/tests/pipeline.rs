//! End-to-end scenarios: bulk import, overlap matching, and the daily
//! rollover.

use geostore::bucket::{initialize_buckets, Buckets};
use geostore::data::{import_location_data, match_data_point};
use geostore::geohash::GeoError;
use geostore::hotspotmap::HotspotMap;
use geostore::msg::GeoPoint;
use geostore::pointer::ONE_DAY;
use geostore::time::new_day;

const START: u64 = 1_600_000_000_000;

fn fresh() -> (geostore::pointer::Pointers, Buckets, HotspotMap) {
    (initialize_buckets(START), Buckets::new(), HotspotMap::new())
}

#[test]
fn imported_point_matches_within_the_overlap_window() {
    let (pointers, mut buckets, mut hotspots) = fresh();
    let points = vec![GeoPoint {
        lon_e7: -730_000_000,
        lat_e7: 400_000_000,
        timestamp_ms: START + 500,
    }];
    let cache = import_location_data(&pointers, &mut buckets, &mut hotspots, &points).unwrap();
    assert_eq!(cache.0.len(), 10);

    // fifty seconds later, well inside the five minute overlap window
    let query = vec![GeoPoint {
        lon_e7: -730_000_000,
        lat_e7: 400_000_000,
        timestamp_ms: START + 50_000,
    }];
    let matched = match_data_point(&pointers, &buckets, &query).unwrap();
    assert_eq!(matched.len(), 1);
    assert_eq!(matched[0].geohash, "drh5dcg0b");
    assert_eq!(matched[0].timestamp_ms, START + 50_000);

    // six minutes later, outside it
    let late = vec![GeoPoint {
        lon_e7: -730_000_000,
        lat_e7: 400_000_000,
        timestamp_ms: START + 500 + 6 * 60 * 1000,
    }];
    let unmatched = match_data_point(&pointers, &buckets, &late).unwrap();
    assert_eq!(unmatched.len(), 0);
}

#[test]
fn a_neighboring_cell_still_matches() {
    let (pointers, mut buckets, mut hotspots) = fresh();
    let points = vec![GeoPoint {
        lon_e7: -730_000_000,
        lat_e7: 400_000_000,
        timestamp_ms: START + 500,
    }];
    import_location_data(&pointers, &mut buckets, &mut hotspots, &points).unwrap();
    // a point a few meters east lands in the adjacent cell and still matches
    let query = vec![GeoPoint {
        lon_e7: -729_999_600,
        lat_e7: 400_000_000,
        timestamp_ms: START + 1_000,
    }];
    let matched = match_data_point(&pointers, &buckets, &query).unwrap();
    assert_eq!(matched.len(), 1);
}

#[test]
fn out_of_window_points_are_skipped_silently() {
    let (pointers, mut buckets, mut hotspots) = fresh();
    let points = vec![
        // far in the past: skipped, even with impossible coordinates
        GeoPoint { lon_e7: 99_000_000_000, lat_e7: 0, timestamp_ms: 5 },
        // in range and fine
        GeoPoint { lon_e7: 0, lat_e7: 0, timestamp_ms: START + 1 },
    ];
    import_location_data(&pointers, &mut buckets, &mut hotspots, &points).unwrap();
    let query = vec![GeoPoint { lon_e7: 0, lat_e7: 0, timestamp_ms: START + 2 }];
    assert_eq!(match_data_point(&pointers, &buckets, &query).unwrap().len(), 1);
}

#[test]
fn an_unencodable_point_in_range_fails_the_batch() {
    let (pointers, mut buckets, mut hotspots) = fresh();
    let points = vec![
        GeoPoint { lon_e7: 0, lat_e7: 0, timestamp_ms: START + 1 },
        GeoPoint { lon_e7: 99_000_000_000, lat_e7: 0, timestamp_ms: START + 2 },
    ];
    let r = import_location_data(&pointers, &mut buckets, &mut hotspots, &points);
    assert_eq!(r.unwrap_err(), GeoError::Encoding);
    let r2 = match_data_point(&pointers, &buckets, &points);
    assert_eq!(r2.unwrap_err(), GeoError::Encoding);
}

#[test]
fn uniform_import_keeps_the_top_list_low_and_sorted() {
    let (pointers, mut buckets, mut hotspots) = fresh();
    // ten thousand points over two thousand coarse cells: five observations
    // per cell, no cell ever exceeding a count of five
    let mut points: Vec<GeoPoint> = Vec::new();
    let mut loc: i64 = 0;
    while loc < 2_000 {
        let mut rep = 0;
        while rep < 5 {
            points.push(GeoPoint {
                lon_e7: 0,
                lat_e7: loc * 100_000,
                timestamp_ms: START + 1_000 + (loc as u64) * 5 + rep,
            });
            rep += 1;
        }
        loc += 1;
    }
    assert_eq!(points.len(), 10_000);
    let cache = import_location_data(&pointers, &mut buckets, &mut hotspots, &points).unwrap();
    let top = cache.0;
    assert!(top.len() <= 10);
    let mut i = 0;
    while i < top.len() {
        assert!(top[i].power <= 5);
        if i > 0 {
            assert!(top[i - 1].power >= top[i].power);
        }
        i += 1;
    }
}

#[test]
fn rollover_evicts_the_retired_window_entirely() {
    let (mut pointers, mut buckets, mut hotspots) = fresh();
    // a point in the window with the latest start time, the one rotation
    // retires
    let t_doomed = START + 13 * (ONE_DAY + 1) + 1_000;
    // and one in the earliest window, which stays
    let t_kept = START + 500;
    let points = vec![
        GeoPoint { lon_e7: -730_000_000, lat_e7: 400_000_000, timestamp_ms: t_doomed },
        GeoPoint { lon_e7: 104_074_400, lat_e7: 576_491_100, timestamp_ms: t_kept },
    ];
    import_location_data(&pointers, &mut buckets, &mut hotspots, &points).unwrap();
    assert_eq!(match_data_point(&pointers, &buckets, &points).unwrap().len(), 2);

    let evicted = new_day(&mut pointers, &mut buckets, &mut hotspots);
    assert_eq!(evicted.start_time, START + 13 * (ONE_DAY + 1));
    assert_eq!(pointers.0.len(), 14);

    // the retired window's point no longer counts towards any hotspot
    let top = hotspots.get_top_hotspots();
    let mut i = 0;
    while i < top.len() {
        if top[i].geo_location == "drh5dcg" {
            assert_eq!(top[i].power, 0);
        }
        i += 1;
    }
    let mut j = 0;
    while j < hotspots.locations.len() {
        if hotspots.locations[j].0 == "drh5dcg" {
            assert_eq!(hotspots.locations[j].1, 0);
        }
        j += 1;
    }

    // its timestamp no longer resolves to any bucket, so nothing matches
    let requery = vec![GeoPoint {
        lon_e7: -730_000_000,
        lat_e7: 400_000_000,
        timestamp_ms: t_doomed,
    }];
    assert_eq!(match_data_point(&pointers, &buckets, &requery).unwrap().len(), 0);

    // the point in the surviving window is still there
    let kept = vec![GeoPoint {
        lon_e7: 104_074_400,
        lat_e7: 576_491_100,
        timestamp_ms: t_kept,
    }];
    assert_eq!(match_data_point(&pointers, &buckets, &kept).unwrap().len(), 1);
}
