//! The retention rotator: the daily rollover that evicts the oldest slot's
//! data and hands the slot a fresh forward window, and the report of the
//! currently retained period.

use crate::bucket::{bucket_index, buckets_wf, BucketName, Buckets};
use crate::hotspotmap::{spec_hotspot_remove, tracker_wf, HotspotMap, TrackerView};
use crate::pointer::{rotated, rotation_window, Pointer, Pointers, ONE_DAY};
use vstd::prelude::*;

verus! {

/// The tracker after removing `n` observations of one key.
pub open spec fn remove_n(v: TrackerView, g: Seq<char>, n: nat) -> TrackerView
    decreases n,
{
    if n == 0 {
        v
    } else {
        spec_hotspot_remove(remove_n(v, g, (n - 1) as nat), g)
    }
}

/// The tracker after removing every occurrence stored in the first `n`
/// entries of a bucket: one removal per stored timestamp, not per unique
/// key, so repeated geohashes decrement their coarse count several times.
pub open spec fn evict_upto(v: TrackerView, es: Seq<(Seq<char>, Seq<u64>)>, n: nat) -> TrackerView
    decreases n,
{
    if n == 0 {
        v
    } else {
        remove_n(evict_upto(v, es, (n - 1) as nat), es[n - 1].0, es[n - 1].1.len())
    }
}

/// The retained period: the earliest window's start and the latest
/// window's end.
pub fn query_dates(pointers: &Pointers) -> (r: (u64, u64))
    requires
        pointers@.len() > 0,
    ensures
        r.0 == pointers@.first().start_time,
        r.1 == pointers@.last().end_time,
{
    let from: u64 = match pointers.first() {
        Some(p) => p.start_time,
        None => 0,
    };
    let to: u64 = match pointers.last() {
        Some(p) => p.end_time,
        None => 0,
    };
    (from, to)
}

/// The daily rollover: retires the window with the latest start time,
/// removes every observation of its bucket from the hotspot tracker (once
/// per stored occurrence), clears that bucket, and re-inserts the slot
/// under a fresh one-day window starting where the earliest retained
/// window ends. The retired window is returned so its bucket can be
/// persisted.
pub fn new_day(
    pointers: &mut Pointers,
    buckets: &mut Buckets,
    hotspot_map: &mut HotspotMap,
) -> (evicted: Pointer)
    requires
        old(pointers)@.len() == 14,
        old(buckets)@.len() == 14,
        buckets_wf(old(buckets)@),
        tracker_wf(old(hotspot_map)@),
        old(pointers)@[0].end_time + ONE_DAY <= u64::MAX,
    ensures
        evicted == old(pointers)@.last(),
        final(pointers)@ == rotated(old(pointers)@),
        final(buckets)@ == old(buckets)@.update(
            bucket_index(old(pointers)@.last().bucket),
            Seq::<(Seq<char>, Seq<u64>)>::empty(),
        ),
        final(hotspot_map)@ == evict_upto(
            old(hotspot_map)@,
            old(buckets)@[bucket_index(old(pointers)@.last().bucket)],
            old(buckets)@[bucket_index(old(pointers)@.last().bucket)].len() as nat,
        ),
        buckets_wf(final(buckets)@),
        tracker_wf(final(hotspot_map)@),
{
    let old_day = match pointers.pop() {
        Some(p) => p,
        None => Pointer { start_time: 0, end_time: 0, bucket: BucketName::One },
    };
    let first_ptr = match pointers.first() {
        Some(p) => *p,
        None => old_day,
    };
    let new_ptr = Pointer {
        start_time: first_ptr.end_time,
        end_time: first_ptr.end_time + ONE_DAY,
        bucket: old_day.bucket,
    };
    let bi = old_day.bucket.index();
    let ghost h0v = hotspot_map@;
    let ghost bks0 = buckets@;
    let ghost bv = buckets@[bi as int];
    let mut ii: usize = 0;
    while ii < buckets.0[bi].locations.len()
        invariant
            bi < 14,
            buckets@ == bks0,
            bks0.len() == 14,
            bv == bks0[bi as int],
            0 <= ii <= bv.len(),
            buckets.0[bi as int]@ == bv,
            hotspot_map@ == evict_upto(h0v, bv, ii as nat),
            tracker_wf(hotspot_map@),
        decreases bv.len() - ii,
    {
        let times_len = buckets.0[bi].locations[ii].1.0.len();
        let mut j: usize = 0;
        while j < times_len
            invariant
                bi < 14,
                buckets@ == bks0,
                bks0.len() == 14,
                bv == bks0[bi as int],
                0 <= ii < bv.len(),
                buckets.0[bi as int]@ == bv,
                times_len == bv[ii as int].1.len(),
                0 <= j <= times_len,
                hotspot_map@ == remove_n(
                    evict_upto(h0v, bv, ii as nat),
                    bv[ii as int].0,
                    j as nat,
                ),
                tracker_wf(hotspot_map@),
            decreases times_len - j,
        {
            let key = &buckets.0[bi].locations[ii].0;
            hotspot_map.remove_data_point(key);
            j = j + 1;
        }
        ii = ii + 1;
    }
    let b = vstd::std_specs::vec::vec_index_mut(&mut buckets.0, bi);
    b.clear();
    proof {
        assert(buckets@ =~= bks0.update(bi as int, Seq::<(Seq<char>, Seq<u64>)>::empty()));
    }
    pointers.insert(new_ptr);
    proof {
        assert(new_ptr == rotation_window(old(pointers)@));
        assert forall|x: int| 0 <= x < 14 implies crate::bucket::bucket_wf(
            #[trigger] buckets@[x],
        ) by {
            if x != bi {
                assert(buckets@[x] == bks0[x]);
            }
        }
    }
    old_day
}

} // verus!
