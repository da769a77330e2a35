//! Tests of the pointer table: initialization, resolution, and rotation.

use geostore::bucket::{initialize_buckets, BucketName, Buckets};
use geostore::hotspotmap::HotspotMap;
use geostore::pointer::{Pointer, Pointers, ONE_DAY};
use geostore::time::{new_day, query_dates};

#[test]
fn initialize_partitions_fourteen_days() {
    let ptrs = initialize_buckets(0);
    assert_eq!(ptrs.0.len(), 14);
    // windows are one day long and adjacent, with the one millisecond step
    let mut i = 0;
    while i < 14 {
        let p = &ptrs.0[i];
        assert_eq!(p.end_time, p.start_time + ONE_DAY);
        if i < 13 {
            assert_eq!(ptrs.0[i + 1].start_time, p.end_time + 1);
        }
        i += 1;
    }
    assert_eq!(ptrs.0[0].start_time, 0);
    assert_eq!(ptrs.0[13].end_time, 14 * ONE_DAY + 13);
}

#[test]
fn resolution_is_exact_inside_and_none_outside() {
    let ptrs = initialize_buckets(0);
    assert_eq!(ptrs.find_bucket(0), Some(BucketName::One));
    assert_eq!(ptrs.find_bucket(ONE_DAY), Some(BucketName::One));
    assert_eq!(ptrs.find_bucket(ONE_DAY + 1), Some(BucketName::Two));
    assert_eq!(ptrs.find_bucket(14 * ONE_DAY + 13), Some(BucketName::Fourteen));
    assert_eq!(ptrs.find_bucket(14 * ONE_DAY + 14), None);
}

#[test]
fn query_dates_reports_the_retained_period() {
    let ptrs = initialize_buckets(5000);
    let (from, to) = query_dates(&ptrs);
    assert_eq!(from, 5000);
    assert_eq!(to, 5000 + 14 * ONE_DAY + 13);
}

#[test]
fn insert_keeps_the_table_sorted() {
    let mut ptrs = Pointers(Vec::new());
    ptrs.insert(Pointer { start_time: 50, end_time: 60, bucket: BucketName::Two });
    ptrs.insert(Pointer { start_time: 10, end_time: 20, bucket: BucketName::One });
    ptrs.insert(Pointer { start_time: 30, end_time: 40, bucket: BucketName::Three });
    assert_eq!(ptrs.0[0].start_time, 10);
    assert_eq!(ptrs.0[1].start_time, 30);
    assert_eq!(ptrs.0[2].start_time, 50);
    assert_eq!(ptrs.first().unwrap().start_time, 10);
    assert_eq!(ptrs.last().unwrap().start_time, 50);
    let popped = ptrs.pop().unwrap();
    assert_eq!(popped.start_time, 50);
    assert_eq!(ptrs.0.len(), 2);
}

#[test]
fn rotation_keeps_fourteen_pointers() {
    let mut ptrs = initialize_buckets(1_600_000_000_000);
    let mut buckets = Buckets::new();
    let mut hotspots = HotspotMap::new();
    let mut day = 0;
    while day < 30 {
        let evicted = new_day(&mut ptrs, &mut buckets, &mut hotspots);
        assert_eq!(ptrs.0.len(), 14);
        // the evicted slot comes back under a fresh one-day window
        let mut found = false;
        let mut i = 0;
        while i < 14 {
            let p = &ptrs.0[i];
            assert_eq!(p.end_time, p.start_time + ONE_DAY);
            if p.bucket == evicted.bucket {
                found = true;
            }
            i += 1;
        }
        assert!(found);
        day += 1;
    }
}
