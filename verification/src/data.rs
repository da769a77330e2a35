//! The import and match pipeline: bulk ingestion into the day buckets and
//! the hotspot tracker, and the overlap query against stored observations.

use crate::bucket::{
    any_neighbor_overlap, bucket_index, buckets_wf, spec_bucket_insert, spec_does_time_overlap,
    Buckets,
};
use crate::geohash::{
    ghash, in_coord_range, spec_encode, valid_geohash, GeoError, GeoLocationTime,
};
use crate::hotspotmap::{
    counts_value, spec_hotspot_insert, tracker_wf, HotSpots, HotspotMap, TrackerView,
};
use crate::pointer::{spec_find_bucket, Pointer, Pointers};
use vstd::prelude::*;

verus! {

/// How far forward a stored observation reaches when matching: five
/// minutes, in milliseconds.
pub const OVERLAP_TIME: u64 = 1000 * 60 * 5;

/// A point dooms the batch when it lands in a retained window but its
/// coordinates cannot be encoded. Points outside every window are skipped
/// silently, whatever their coordinates.
pub open spec fn point_bad(ptrs: Seq<Pointer>, p: crate::msg::GeoPoint) -> bool {
    spec_find_bucket(ptrs, p.timestamp_ms) is Some && !in_coord_range(
        p.lon_e7 as int,
        p.lat_e7 as int,
    )
}

/// The index of the first dooming point, or the batch length when the
/// whole batch is clean.
pub open spec fn first_bad(ptrs: Seq<Pointer>, ps: Seq<crate::msg::GeoPoint>) -> int
    decreases ps.len(),
{
    if ps.len() == 0 {
        0
    } else if point_bad(ptrs, ps.first()) {
        0
    } else {
        1 + first_bad(ptrs, ps.drop_first())
    }
}

/// [`first_bad`] points at the first dooming point.
pub proof fn lemma_first_bad(ptrs: Seq<Pointer>, ps: Seq<crate::msg::GeoPoint>)
    ensures
        0 <= first_bad(ptrs, ps) <= ps.len(),
        first_bad(ptrs, ps) < ps.len() ==> point_bad(ptrs, ps[first_bad(ptrs, ps)]),
        forall|j: int| 0 <= j < first_bad(ptrs, ps) ==> !point_bad(ptrs, ps[j]),
        forall|j: int| 0 <= j < ps.len() && point_bad(ptrs, ps[j]) ==> first_bad(ptrs, ps) <= j,
    decreases ps.len(),
{
    if ps.len() > 0 && !point_bad(ptrs, ps.first()) {
        let d = ps.drop_first();
        lemma_first_bad(ptrs, d);
        assert(forall|j: int| 0 <= j < d.len() ==> d[j] == ps[j + 1]);
        assert forall|j: int| 0 <= j < first_bad(ptrs, ps) implies !point_bad(ptrs, ps[j]) by {
            if j > 0 {
                assert(!point_bad(ptrs, d[j - 1]));
            }
        }
        assert forall|j: int| 0 <= j < ps.len() && point_bad(ptrs, ps[j]) implies first_bad(
            ptrs,
            ps,
        ) <= j by {
            if j > 0 {
                assert(point_bad(ptrs, d[j - 1]));
            }
        }
    }
}

/// The buckets and the tracker after ingesting one point: a point in a
/// retained window is stored in that window's bucket and counted by the
/// tracker; any other point changes nothing.
pub open spec fn import_step(
    ptrs: Seq<Pointer>,
    bks: Seq<Seq<(Seq<char>, Seq<u64>)>>,
    hs: TrackerView,
    p: crate::msg::GeoPoint,
) -> (Seq<Seq<(Seq<char>, Seq<u64>)>>, TrackerView) {
    match spec_find_bucket(ptrs, p.timestamp_ms) {
        Option::None => (bks, hs),
        Option::Some(name) => {
            let g = spec_encode(p.lon_e7 as int, p.lat_e7 as int);
            let bi = bucket_index(name);
            (
                bks.update(bi, spec_bucket_insert(bks[bi], g, p.timestamp_ms)),
                spec_hotspot_insert(hs, g),
            )
        },
    }
}

/// The buckets and the tracker after ingesting the first `n` points of a
/// batch, in order.
pub open spec fn import_upto(
    ptrs: Seq<Pointer>,
    bks: Seq<Seq<(Seq<char>, Seq<u64>)>>,
    hs: TrackerView,
    ps: Seq<crate::msg::GeoPoint>,
    n: nat,
) -> (Seq<Seq<(Seq<char>, Seq<u64>)>>, TrackerView)
    decreases n,
{
    if n == 0 {
        (bks, hs)
    } else {
        let prev = import_upto(ptrs, bks, hs, ps, (n - 1) as nat);
        import_step(ptrs, prev.0, prev.1, ps[n - 1])
    }
}

/// Bulk ingestion. Points outside the retained period are skipped
/// silently. A point inside it whose coordinates cannot be encoded stops
/// the batch at the first such point with an encoding failure; the points
/// before it have been applied. On success the refreshed top-hotspot
/// snapshot is returned, ready to be cached.
pub fn import_location_data(
    pointers: &Pointers,
    buckets: &mut Buckets,
    hotspot_map: &mut HotspotMap,
    data_points: &Vec<crate::msg::GeoPoint>,
) -> (r: Result<HotSpots, GeoError>)
    requires
        buckets_wf(old(buckets)@),
        tracker_wf(old(hotspot_map)@),
        data_points@.len() <= u32::MAX,
        forall|k: Seq<char>|
            counts_value(old(hotspot_map)@.counts, k) + data_points@.len() <= u32::MAX,
    ensures
        ({
            let bad = first_bad(pointers@, data_points@);
            let clean = bad >= data_points@.len();
            let end: nat = if clean {
                data_points@.len() as nat
            } else {
                bad as nat
            };
            let st = import_upto(pointers@, old(buckets)@, old(hotspot_map)@, data_points@, end);
            &&& final(buckets)@ == st.0
            &&& final(hotspot_map)@ == st.1
            &&& buckets_wf(final(buckets)@)
            &&& tracker_wf(final(hotspot_map)@)
            &&& !clean ==> r == Result::<HotSpots, GeoError>::Err(GeoError::Encoding)
            &&& clean ==> r is Ok && r.unwrap()@ == st.1.zones
        }),
{
    let ghost b0 = buckets@;
    let ghost h0 = hotspot_map@;
    let ghost ps = data_points@;
    proof {
        lemma_first_bad(pointers@, ps);
    }
    let mut i: usize = 0;
    while i < data_points.len()
        invariant
            0 <= i <= ps.len(),
            ps == data_points@,
            b0 == old(buckets)@,
            h0 == old(hotspot_map)@,
            ps.len() <= u32::MAX,
            buckets_wf(b0),
            tracker_wf(h0),
            forall|k: Seq<char>| counts_value(h0.counts, k) + ps.len() <= u32::MAX,
            forall|j: int| 0 <= j < i ==> !point_bad(pointers@, ps[j]),
            (buckets@, hotspot_map@) == import_upto(pointers@, b0, h0, ps, i as nat),
            buckets_wf(buckets@),
            tracker_wf(hotspot_map@),
            forall|k: Seq<char>|
                counts_value(hotspot_map@.counts, k) <= counts_value(h0.counts, k) + i,
        decreases ps.len() - i,
    {
        let p = data_points[i];
        let found = pointers.find_bucket(p.timestamp_ms);
        match found {
            None => {
                proof {
                    assert(import_upto(pointers@, b0, h0, ps, (i + 1) as nat) == (buckets@,
                    hotspot_map@));
                }
            },
            Some(name) => {
                match ghash(p.lon_e7, p.lat_e7) {
                    Err(_) => {
                        proof {
                            lemma_first_bad(pointers@, ps);
                            assert(point_bad(pointers@, ps[i as int]));
                            assert(first_bad(pointers@, ps) == i);
                            assert(buckets@ == import_upto(pointers@, b0, h0, ps, i as nat).0);
                            assert(hotspot_map@ == import_upto(pointers@, b0, h0, ps, i as nat).1);
                        }
                        return Err(GeoError::Encoding);
                    },
                    Ok(g) => {
                        let ghost gs = g@;
                        let ghost hs_before = hotspot_map@;
                        let ghost bks_before = buckets@;
                        proof {
                            assert(counts_value(hs_before.counts, crate::hotspotmap::coarse(gs))
                                <= counts_value(h0.counts, crate::hotspotmap::coarse(gs)) + i);
                        }
                        hotspot_map.insert_data_point(g.clone());
                        let bi = name.index();
                        let b = vstd::std_specs::vec::vec_index_mut(&mut buckets.0, bi);
                        b.insert_data_point(
                            GeoLocationTime { geohash: g, timestamp_ms: p.timestamp_ms },
                        );
                        proof {
                            assert(buckets@ =~= bks_before.update(
                                bi as int,
                                spec_bucket_insert(bks_before[bi as int], gs, p.timestamp_ms),
                            ));
                            assert((buckets@, hotspot_map@) == import_step(pointers@, bks_before,
                            hs_before, ps[i as int]));
                            assert forall|k: Seq<char>| counts_value(hotspot_map@.counts, k)
                                <= counts_value(h0.counts, k) + i + 1 by {
                                crate::hotspotmap::lemma_insert_count_step(hs_before, gs);
                            }
                            assert forall|x: int| 0 <= x < 14 implies crate::bucket::bucket_wf(
                                #[trigger] buckets@[x],
                            ) by {
                                if x != bi {
                                    assert(buckets@[x] == bks_before[x]);
                                }
                            }
                        }
                    },
                }
            },
        }
        i = i + 1;
    }
    proof {
        assert(first_bad(pointers@, ps) >= ps.len());
    }
    let cache = HotSpots(hotspot_map.get_top_hotspots());
    Ok(cache)
}

/// The values of a run of observations.
pub open spec fn glt_views(s: Seq<GeoLocationTime>) -> Seq<(Seq<char>, u64)> {
    Seq::new(s.len(), |i: int| s[i]@)
}

/// Whether a query point finds an overlap: it must land in a retained
/// window, encode, and overlap the window's bucket at its own cell or at
/// one of the eight neighboring cells.
pub open spec fn point_matches(
    ptrs: Seq<Pointer>,
    bks: Seq<Seq<(Seq<char>, Seq<u64>)>>,
    p: crate::msg::GeoPoint,
) -> bool {
    match spec_find_bucket(ptrs, p.timestamp_ms) {
        Option::None => false,
        Option::Some(name) => in_coord_range(p.lon_e7 as int, p.lat_e7 as int) && {
            let g = spec_encode(p.lon_e7 as int, p.lat_e7 as int);
            let bv = bks[bucket_index(name)];
            spec_does_time_overlap(bv, g, p.timestamp_ms, OVERLAP_TIME) || any_neighbor_overlap(
                bv,
                g,
                p.timestamp_ms,
                OVERLAP_TIME,
            )
        },
    }
}

/// The observations, as geohash and timestamp, of the matching points
/// among the first `n` of a batch, in input order.
pub open spec fn match_upto(
    ptrs: Seq<Pointer>,
    bks: Seq<Seq<(Seq<char>, Seq<u64>)>>,
    ps: Seq<crate::msg::GeoPoint>,
    n: nat,
) -> Seq<(Seq<char>, u64)>
    decreases n,
{
    if n == 0 {
        Seq::empty()
    } else {
        let prev = match_upto(ptrs, bks, ps, (n - 1) as nat);
        if point_matches(ptrs, bks, ps[n - 1]) {
            prev.push(
                (
                    spec_encode(ps[n - 1].lon_e7 as int, ps[n - 1].lat_e7 as int),
                    ps[n - 1].timestamp_ms,
                ),
            )
        } else {
            prev
        }
    }
}

/// The overlap query: every query point that lands in a retained window
/// and overlaps stored data, returned as an observation, in input order.
/// Points outside the retained period are skipped; a retained point whose
/// coordinates cannot be encoded stops the query with an encoding failure.
pub fn match_data_point(
    pointers: &Pointers,
    buckets: &Buckets,
    data_points: &Vec<crate::msg::GeoPoint>,
) -> (r: Result<Vec<GeoLocationTime>, GeoError>)
    requires
        buckets@.len() == 14,
    ensures
        ({
            let bad = first_bad(pointers@, data_points@);
            let clean = bad >= data_points@.len();
            &&& !clean ==> r == Result::<Vec<GeoLocationTime>, GeoError>::Err(GeoError::Encoding)
            &&& clean ==> r is Ok && glt_views(r.unwrap()@) == match_upto(
                pointers@,
                buckets@,
                data_points@,
                data_points@.len() as nat,
            )
        }),
{
    let ghost ps = data_points@;
    proof {
        lemma_first_bad(pointers@, ps);
    }
    let mut geo_overlap: Vec<GeoLocationTime> = Vec::new();
    let mut i: usize = 0;
    proof {
        assert(glt_views(geo_overlap@) =~= Seq::<(Seq<char>, u64)>::empty());
    }
    while i < data_points.len()
        invariant
            0 <= i <= ps.len(),
            ps == data_points@,
            buckets@.len() == 14,
            forall|j: int| 0 <= j < i ==> !point_bad(pointers@, ps[j]),
            glt_views(geo_overlap@) == match_upto(pointers@, buckets@, ps, i as nat),
        decreases ps.len() - i,
    {
        let p = data_points[i];
        let found = pointers.find_bucket(p.timestamp_ms);
        match found {
            None => {},
            Some(name) => {
                match ghash(p.lon_e7, p.lat_e7) {
                    Err(_) => {
                        proof {
                            lemma_first_bad(pointers@, ps);
                            assert(point_bad(pointers@, ps[i as int]));
                            assert(first_bad(pointers@, ps) == i);
                        }
                        return Err(GeoError::Encoding);
                    },
                    Ok(g) => {
                        let bi = name.index();
                        let b = &buckets.0[bi];
                        let m = b.match_pos(&g, p.timestamp_ms, OVERLAP_TIME);
                        match m {
                            Ok(true) => {
                                let ghost before = geo_overlap@;
                                geo_overlap.push(
                                    GeoLocationTime { geohash: g, timestamp_ms: p.timestamp_ms },
                                );
                                proof {
                                    assert(point_matches(pointers@, buckets@, ps[i as int]));
                                    assert(glt_views(geo_overlap@) =~= glt_views(before).push(
                                        (spec_encode(p.lon_e7 as int, p.lat_e7 as int),
                                        p.timestamp_ms),
                                    ));
                                }
                            },
                            Ok(false) => {
                                proof {
                                    assert(!point_matches(pointers@, buckets@, ps[i as int]));
                                }
                            },
                            Err(_) => {
                                // an encoded key is always well formed, so
                                // the neighbor lookup cannot fail here
                                proof {
                                    assert(valid_geohash(g@));
                                    assert(false);
                                }
                                return Err(GeoError::Decoding);
                            },
                        }
                    },
                }
            },
        }
        i = i + 1;
    }
    Ok(geo_overlap)
}

} // verus!
