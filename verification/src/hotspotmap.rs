//! The hotspot tracker: per-coarse-geohash observation counts and a
//! continuously sorted top-K list, maintained incrementally on every
//! insertion and removal, with no full rescan.

use crate::bucket::{bucket_wf, has_key, key_index, lemma_key_index};
use vstd::multiset::Multiset;
use vstd::prelude::*;
use vstd::seq_lib::group_to_multiset_ensures;
use vstd::string::StringExecFnsIsAscii;

verus! {

/// How many hotspots the tracker keeps sorted at all times.
pub const TOP_K: usize = 10;

/// How many characters of a geohash key make its coarse cell.
pub const COARSE_LEN: usize = 7;

/// A coarse cell and how often it has been observed.
#[derive(Clone, Debug, Default)]
pub struct HotSpot {
    pub geo_location: String,
    pub power: u32,
}

/// The mathematical value of a [`HotSpot`].
#[verifier::ext_equal]
pub struct Spot {
    pub geo: Seq<char>,
    pub power: u32,
}

impl View for HotSpot {
    type V = Spot;

    open spec fn view(&self) -> Spot {
        Spot { geo: self.geo_location@, power: self.power }
    }
}

/// The values of a run of hotspots.
pub open spec fn zone_views(s: Seq<HotSpot>) -> Seq<Spot> {
    Seq::new(s.len(), |i: int| s[i]@)
}

/// A geohash key cut down to its coarse cell.
pub open spec fn coarse(g: Seq<char>) -> Seq<char> {
    if g.len() <= COARSE_LEN { g } else { g.take(COARSE_LEN as int) }
}

/// Hotspots in non-increasing order of power.
pub open spec fn sorted_desc(s: Seq<Spot>) -> bool {
    forall|i: int, j: int| 0 <= i < j < s.len() ==> s[i].power >= s[j].power
}

/// Places a hotspot into a sorted run, after every entry at least as
/// powerful.
pub open spec fn insert_desc(s: Seq<Spot>, x: Spot) -> Seq<Spot>
    decreases s.len(),
{
    if s.len() == 0 {
        seq![x]
    } else if s.last().power >= x.power {
        s.push(x)
    } else {
        insert_desc(s.drop_last(), x).push(s.last())
    }
}

/// Insertion sort by power, descending, keeping the relative order of
/// entries of equal power.
pub open spec fn sort_desc(s: Seq<Spot>) -> Seq<Spot>
    decreases s.len(),
{
    if s.len() == 0 {
        Seq::empty()
    } else {
        insert_desc(sort_desc(s.drop_last()), s.last())
    }
}

/// The index of the first hotspot with a coarse cell, or the list length
/// when the cell is not listed.
pub open spec fn zone_index(zs: Seq<Spot>, c: Seq<char>) -> int
    decreases zs.len(),
{
    if zs.len() == 0 {
        0
    } else if zs.first().geo == c {
        0
    } else {
        1 + zone_index(zs.drop_first(), c)
    }
}

/// Whether the top list carries the coarse cell.
pub open spec fn in_zones(zs: Seq<Spot>, c: Seq<char>) -> bool {
    zone_index(zs, c) < zs.len()
}

/// [`zone_index`] points at the first entry with the cell.
pub proof fn lemma_zone_index(zs: Seq<Spot>, c: Seq<char>)
    ensures
        0 <= zone_index(zs, c) <= zs.len(),
        zone_index(zs, c) < zs.len() ==> zs[zone_index(zs, c)].geo == c,
        forall|j: int| 0 <= j < zone_index(zs, c) ==> zs[j].geo != c,
        forall|j: int| 0 <= j < zs.len() && zs[j].geo == c ==> zone_index(zs, c) <= j,
    decreases zs.len(),
{
    if zs.len() > 0 && zs.first().geo != c {
        let d = zs.drop_first();
        lemma_zone_index(d, c);
        assert(forall|j: int| 0 <= j < d.len() ==> d[j] == zs[j + 1]);
        assert forall|j: int| 0 <= j < zone_index(zs, c) implies zs[j].geo != c by {
            if j > 0 {
                assert(d[j - 1].geo != c);
            }
        }
        assert forall|j: int| 0 <= j < zs.len() && zs[j].geo == c implies zone_index(zs, c) <= j by {
            if j > 0 {
                assert(d[j - 1].geo == c);
            }
        }
    }
}

/// Sorted insertion keeps sortedness and adds exactly the new entry.
pub proof fn lemma_insert_desc_props(s: Seq<Spot>, x: Spot)
    requires
        sorted_desc(s),
    ensures
        sorted_desc(insert_desc(s, x)),
        insert_desc(s, x).to_multiset() == s.to_multiset().insert(x),
        insert_desc(s, x).len() == s.len() + 1,
    decreases s.len(),
{
    broadcast use group_to_multiset_ensures;

    if s.len() == 0 {
        assert(seq![x] =~= Seq::<Spot>::empty().push(x));
        assert(Seq::<Spot>::empty().to_multiset() =~= Multiset::<Spot>::empty());
    } else if s.last().power >= x.power {
    } else {
        lemma_insert_desc_props(s.drop_last(), x);
        let r = insert_desc(s.drop_last(), x);
        assert forall|i: int, j: int|
            0 <= i < j < r.push(s.last()).len() implies r.push(s.last())[i].power >= r.push(
            s.last(),
        )[j].power by {
            if j == r.len() && i < r.len() {
                assert(r.to_multiset().count(r[i]) > 0);
                assert(s.drop_last().to_multiset().insert(x).count(r[i]) > 0);
                if r[i] == x {
                } else {
                    assert(s.drop_last().to_multiset().count(r[i]) > 0);
                    assert(s.drop_last().contains(r[i]));
                }
            }
        }
        assert(s.drop_last().to_multiset().insert(x).insert(s.last()) =~= s.drop_last().push(
            s.last(),
        ).to_multiset().insert(x));
        assert(s.drop_last().push(s.last()) =~= s);
    }
}

/// Sorting sorts, and neither adds nor drops entries.
pub proof fn lemma_sort_desc_props(s: Seq<Spot>)
    ensures
        sorted_desc(sort_desc(s)),
        sort_desc(s).to_multiset() == s.to_multiset(),
        sort_desc(s).len() == s.len(),
    decreases s.len(),
{
    broadcast use group_to_multiset_ensures;

    if s.len() > 0 {
        lemma_sort_desc_props(s.drop_last());
        lemma_insert_desc_props(sort_desc(s.drop_last()), s.last());
        assert(s.drop_last().push(s.last()) =~= s);
    }
}

/// Sorted insertion at a known index: with everything below the index at
/// least as powerful and everything at or above it strictly weaker,
/// insertion is exactly a splice at that index.
pub proof fn lemma_insert_desc_split(s: Seq<Spot>, x: Spot, idx: int)
    requires
        0 <= idx <= s.len(),
        forall|j: int| idx <= j < s.len() ==> s[j].power < x.power,
        forall|j: int| 0 <= j < idx ==> s[j].power >= x.power,
    ensures
        insert_desc(s, x) == s.insert(idx, x),
    decreases s.len(),
{
    if s.len() == 0 {
        assert(insert_desc(s, x) =~= s.insert(0, x));
    } else if s.last().power >= x.power {
        assert(idx == s.len());
        assert(s.push(x) =~= s.insert(s.len() as int, x));
    } else {
        assert(idx < s.len());
        lemma_insert_desc_split(s.drop_last(), x, idx);
        assert(s.drop_last().insert(idx, x).push(s.last()) =~= s.insert(idx, x));
    }
}

/// Cuts a key down to its coarse cell.
fn truncated(g: &String) -> (r: String)
    ensures
        r@ == coarse(g@),
{
    let l = g.as_str().unicode_len();
    if l <= COARSE_LEN {
        g.clone()
    } else {
        let r = g.as_str().substring_char(0, COARSE_LEN).to_owned();
        proof {
            assert(g@.subrange(0, COARSE_LEN as int) =~= coarse(g@));
        }
        r
    }
}

/// A copy of one hotspot with the same value.
fn spot_copy(h: &HotSpot) -> (r: HotSpot)
    ensures
        r@ == h@,
{
    HotSpot { geo_location: h.geo_location.clone(), power: h.power }
}

/// A copy of the list, sorted by power, descending.
fn sorted_copy(v: &Vec<HotSpot>) -> (r: Vec<HotSpot>)
    ensures
        zone_views(r@) == sort_desc(zone_views(v@)),
{
    let mut out: Vec<HotSpot> = Vec::new();
    let mut i: usize = 0;
    proof {
        assert(zone_views(v@).take(0) =~= Seq::<Spot>::empty());
        assert(zone_views(out@) =~= Seq::<Spot>::empty());
    }
    while i < v.len()
        invariant
            0 <= i <= v@.len(),
            zone_views(out@) == sort_desc(zone_views(v@).take(i as int)),
            sorted_desc(zone_views(out@)),
        decreases v@.len() - i,
    {
        let x = spot_copy(&v[i]);
        let mut idx: usize = out.len();
        while idx > 0 && out[idx - 1].power < x.power
            invariant
                0 <= idx <= out@.len(),
                forall|j: int|
                    idx <= j < out@.len() ==> (#[trigger] zone_views(out@)[j]).power < x@.power,
            decreases idx,
        {
            idx = idx - 1;
        }
        proof {
            assert forall|j: int| 0 <= j < idx implies (#[trigger] zone_views(out@)[j]).power
                >= x@.power by {
                assert(zone_views(out@)[j].power >= zone_views(out@)[idx - 1].power);
            }
            lemma_insert_desc_split(zone_views(out@), x@, idx as int);
            lemma_insert_desc_props(zone_views(out@), x@);
            assert(zone_views(v@).take(i + 1).drop_last() =~= zone_views(v@).take(i as int));
            assert(zone_views(v@).take(i + 1).last() == v@[i as int]@);
            assert(zone_views(out@.insert(idx as int, x)) =~= zone_views(out@).insert(
                idx as int,
                x@,
            ));
        }
        out.insert(idx, x);
        i = i + 1;
    }
    proof {
        assert(zone_views(v@).take(v@.len() as int) =~= zone_views(v@));
    }
    out
}

/// The mathematical value of the tracker: the counts list and the top list.
#[verifier::ext_equal]
pub struct TrackerView {
    pub counts: Seq<(Seq<char>, u32)>,
    pub zones: Seq<Spot>,
}

/// The tracked count of a coarse cell (zero when it was never seen).
pub open spec fn counts_value(cs: Seq<(Seq<char>, u32)>, c: Seq<char>) -> int {
    if has_key(cs, c) {
        cs[key_index(cs, c)].1 as int
    } else {
        0
    }
}

/// The placeholder top list of a fresh tracker: unnamed cells of power zero.
pub open spec fn placeholder_zones() -> Seq<Spot> {
    Seq::new(TOP_K as nat, |i: int| Spot { geo: Seq::empty(), power: 0u32 })
}

/// A healthy tracker: counts keyed uniquely, and a top list of fixed length
/// kept sorted by power, descending.
pub open spec fn tracker_wf(v: TrackerView) -> bool {
    &&& bucket_wf(v.counts)
    &&& v.zones.len() == TOP_K
    &&& sorted_desc(v.zones)
}

/// The tracker after recording one observation of a key: the coarse cell's
/// count grows by one; if the cell is already on the top list its power is
/// refreshed in place, otherwise it evicts the weakest entry whenever its
/// count beats that entry's power; either way the list is re-sorted.
pub open spec fn spec_hotspot_insert(v: TrackerView, g: Seq<char>) -> TrackerView {
    let c = coarse(g);
    let i = key_index(v.counts, c);
    let n = if i < v.counts.len() {
        v.counts[i].1 as int + 1
    } else {
        1
    };
    let cs2 = if i < v.counts.len() {
        v.counts.update(i, (c, n as u32))
    } else {
        v.counts.push((c, 1u32))
    };
    let zi = zone_index(v.zones, c);
    let zs2 = if zi < v.zones.len() {
        sort_desc(v.zones.update(zi, Spot { geo: c, power: n as u32 }))
    } else if v.zones.len() > 0 && n > v.zones.last().power {
        sort_desc(v.zones.drop_last().push(Spot { geo: c, power: n as u32 }))
    } else {
        v.zones
    };
    TrackerView { counts: cs2, zones: zs2 }
}

/// The tracker after removing one observation of a key: the coarse cell's
/// count shrinks by one, not below zero (zero entries are kept, not
/// purged), and a listed cell's power shrinks the same way.
pub open spec fn spec_hotspot_remove(v: TrackerView, g: Seq<char>) -> TrackerView {
    let c = coarse(g);
    let i = key_index(v.counts, c);
    let cs2 = if i < v.counts.len() {
        v.counts.update(
            i,
            (c, if v.counts[i].1 > 0 {
                (v.counts[i].1 - 1) as u32
            } else {
                0u32
            }),
        )
    } else {
        v.counts
    };
    let zi = zone_index(v.zones, c);
    let zs2 = if zi < v.zones.len() {
        sort_desc(
            v.zones.update(
                zi,
                Spot {
                    geo: c,
                    power: if v.zones[zi].power > 0 {
                        (v.zones[zi].power - 1) as u32
                    } else {
                        0u32
                    },
                },
            ),
        )
    } else {
        v.zones
    };
    TrackerView { counts: cs2, zones: zs2 }
}

/// The tracker: occurrence counts per coarse cell, and the maintained top
/// list, readable at any time without recomputation.
#[derive(Clone, Debug)]
pub struct HotspotMap {
    pub locations: Vec<(String, u32)>,
    pub hotzones: Vec<HotSpot>,
}

impl View for HotspotMap {
    type V = TrackerView;

    open spec fn view(&self) -> TrackerView {
        TrackerView {
            counts: Seq::new(
                self.locations@.len(),
                |i: int| (self.locations@[i].0@, self.locations@[i].1),
            ),
            zones: zone_views(self.hotzones@),
        }
    }
}

impl HotspotMap {
    /// A fresh tracker: no counts, and a placeholder top list.
    pub fn new() -> (r: HotspotMap)
        ensures
            r@ == (TrackerView { counts: Seq::empty(), zones: placeholder_zones() }),
            tracker_wf(r@),
    {
        let mut hotzones: Vec<HotSpot> = Vec::new();
        let mut i: usize = 0;
        while i < TOP_K
            invariant
                0 <= i <= TOP_K,
                hotzones@.len() == i,
                forall|j: int|
                    0 <= j < i ==> (#[trigger] hotzones@[j])@ == (Spot {
                        geo: Seq::<char>::empty(),
                        power: 0u32,
                    }),
            decreases TOP_K - i,
        {
            hotzones.push(HotSpot { geo_location: String::new(), power: 0 });
            i = i + 1;
        }
        let r = HotspotMap { locations: Vec::new(), hotzones };
        proof {
            assert(r@.counts =~= Seq::<(Seq<char>, u32)>::empty());
            assert(r@.zones =~= placeholder_zones());
            assert(r@ =~= (TrackerView { counts: Seq::empty(), zones: placeholder_zones() }));
        }
        r
    }

    /// The index of the coarse cell in the counts list, if it was seen.
    fn find_count(&self, key: &String) -> (r: Option<usize>)
        ensures
            r is Some ==> r.unwrap() == key_index(self@.counts, key@) && has_key(
                self@.counts,
                key@,
            ),
            r is None ==> !has_key(self@.counts, key@),
    {
        let mut i: usize = 0;
        while i < self.locations.len()
            invariant
                0 <= i <= self@.counts.len(),
                forall|j: int| 0 <= j < i ==> (#[trigger] self@.counts[j]).0 != key@,
            decreases self@.counts.len() - i,
        {
            let e = &self.locations[i];
            if e.0 == *key {
                proof {
                    lemma_key_index(self@.counts, key@);
                    assert(self@.counts[i as int].0 == key@);
                }
                return Some(i);
            }
            i = i + 1;
        }
        proof {
            lemma_key_index(self@.counts, key@);
            if has_key(self@.counts, key@) {
                assert(self@.counts[key_index(self@.counts, key@)].0 == key@);
            }
        }
        None
    }

    /// The position of the coarse cell on the top list, if it is there.
    fn find_zone_pos(&self, key: &String) -> (r: Option<usize>)
        ensures
            r is Some ==> r.unwrap() == zone_index(self@.zones, key@) && in_zones(
                self@.zones,
                key@,
            ),
            r is None ==> !in_zones(self@.zones, key@),
    {
        let mut i: usize = 0;
        while i < self.hotzones.len()
            invariant
                0 <= i <= self@.zones.len(),
                forall|j: int| 0 <= j < i ==> (#[trigger] self@.zones[j]).geo != key@,
            decreases self@.zones.len() - i,
        {
            let e = &self.hotzones[i];
            if e.geo_location == *key {
                proof {
                    lemma_zone_index(self@.zones, key@);
                    assert(self@.zones[i as int].geo == key@);
                }
                return Some(i);
            }
            i = i + 1;
        }
        proof {
            lemma_zone_index(self@.zones, key@);
            if in_zones(self@.zones, key@) {
                assert(self@.zones[zone_index(self@.zones, key@)].geo == key@);
            }
        }
        None
    }

    /// Whether the top list carries this coarse cell.
    pub fn _in_hotzones(&self, str: &String) -> (r: bool)
        ensures
            r == in_zones(self@.zones, str@),
    {
        match self.find_zone_pos(str) {
            Some(_) => true,
            None => false,
        }
    }

    /// Records one observation of a geohash key.
    pub fn insert_data_point(&mut self, ghash: String)
        requires
            tracker_wf(old(self)@),
            counts_value(old(self)@.counts, coarse(ghash@)) < u32::MAX,
        ensures
            final(self)@ == spec_hotspot_insert(old(self)@, ghash@),
            tracker_wf(final(self)@),
    {
        let ghost v0 = self@;
        let ghost g = ghash@;
        let c_str = truncated(&ghash);
        let ghost c = c_str@;
        proof {
            lemma_key_index(v0.counts, c);
        }
        let count: u32;
        match self.find_count(&c_str) {
            Some(i) => {
                let e = vstd::std_specs::vec::vec_index_mut(&mut self.locations, i);
                let nv = e.1 + 1;
                e.1 = nv;
                count = nv;
            },
            None => {
                self.locations.push((c_str.clone(), 1));
                count = 1;
            },
        }
        proof {
            let iv = key_index(v0.counts, c);
            if iv < v0.counts.len() {
                assert(self@.counts =~= v0.counts.update(iv, (c, (v0.counts[iv].1 + 1) as u32)));
            } else {
                assert(self@.counts =~= v0.counts.push((c, 1u32)));
            }
            assert(self@.zones == v0.zones);
            assert forall|a: int, b: int| 0 <= a < b < self@.counts.len() implies self@.counts[a].0
                != self@.counts[b].0 by {
                if b < v0.counts.len() {
                    assert(self@.counts[a].0 == v0.counts[a].0);
                    assert(self@.counts[b].0 == v0.counts[b].0);
                } else {
                    assert(self@.counts[a].0 == v0.counts[a].0);
                    assert(self@.counts[b].0 == c);
                }
            }
        }
        match self.find_zone_pos(&c_str) {
            Some(zi) => {
                proof {
                    lemma_zone_index(v0.zones, c);
                }
                let z = vstd::std_specs::vec::vec_index_mut(&mut self.hotzones, zi);
                z.power = count;
                proof {
                    assert(zone_views(self.hotzones@) =~= v0.zones.update(
                        zi as int,
                        Spot { geo: c, power: count },
                    ));
                }
                let sorted = sorted_copy(&self.hotzones);
                self.hotzones = sorted;
                proof {
                    lemma_sort_desc_props(v0.zones.update(zi as int, Spot { geo: c, power: count }));
                }
            },
            None => {
                let lastpow = self.hotzones[self.hotzones.len() - 1].power;
                if count > lastpow {
                    let ghost zs = zone_views(self.hotzones@);
                    let _ = self.hotzones.pop();
                    self.hotzones.push(HotSpot { geo_location: c_str, power: count });
                    proof {
                        assert(zone_views(self.hotzones@) =~= zs.drop_last().push(
                            Spot { geo: c, power: count },
                        ));
                    }
                    let sorted = sorted_copy(&self.hotzones);
                    self.hotzones = sorted;
                    proof {
                        lemma_sort_desc_props(
                            v0.zones.drop_last().push(Spot { geo: c, power: count }),
                        );
                    }
                }
            },
        }
        proof {
            assert(self@ =~= spec_hotspot_insert(v0, g));
        }
    }

    /// Removes one observation of a geohash key, never driving a count or a
    /// power below zero.
    pub fn remove_data_point(&mut self, ghash: &String)
        requires
            tracker_wf(old(self)@),
        ensures
            final(self)@ == spec_hotspot_remove(old(self)@, ghash@),
            tracker_wf(final(self)@),
    {
        let ghost v0 = self@;
        let ghost g = ghash@;
        let c_str = truncated(ghash);
        let ghost c = c_str@;
        proof {
            lemma_key_index(v0.counts, c);
        }
        match self.find_count(&c_str) {
            Some(i) => {
                let e = vstd::std_specs::vec::vec_index_mut(&mut self.locations, i);
                if e.1 > 0 {
                    let nv = e.1 - 1;
                    e.1 = nv;
                }
            },
            None => {},
        }
        proof {
            let iv = key_index(v0.counts, c);
            if iv < v0.counts.len() {
                assert(self@.counts =~= v0.counts.update(
                    iv,
                    (c, if v0.counts[iv].1 > 0 {
                        (v0.counts[iv].1 - 1) as u32
                    } else {
                        0u32
                    }),
                ));
            } else {
                assert(self@.counts =~= v0.counts);
            }
            assert(self@.zones == v0.zones);
            assert forall|a: int, b: int| 0 <= a < b < self@.counts.len() implies self@.counts[a].0
                != self@.counts[b].0 by {
                assert(self@.counts[a].0 == v0.counts[a].0);
                assert(self@.counts[b].0 == v0.counts[b].0);
            }
        }
        match self.find_zone_pos(&c_str) {
            Some(zi) => {
                proof {
                    lemma_zone_index(v0.zones, c);
                }
                let z = vstd::std_specs::vec::vec_index_mut(&mut self.hotzones, zi);
                if z.power > 0 {
                    let np = z.power - 1;
                    z.power = np;
                }
                proof {
                    assert(zone_views(self.hotzones@) =~= v0.zones.update(
                        zi as int,
                        Spot {
                            geo: c,
                            power: if v0.zones[zi as int].power > 0 {
                                (v0.zones[zi as int].power - 1) as u32
                            } else {
                                0u32
                            },
                        },
                    ));
                }
                let sorted = sorted_copy(&self.hotzones);
                self.hotzones = sorted;
                proof {
                    lemma_sort_desc_props(
                        v0.zones.update(
                            zi as int,
                            Spot {
                                geo: c,
                                power: if v0.zones[zi as int].power > 0 {
                                    (v0.zones[zi as int].power - 1) as u32
                                } else {
                                    0u32
                                },
                            },
                        ),
                    );
                }
            },
            None => {},
        }
        proof {
            assert(self@ =~= spec_hotspot_remove(v0, g));
        }
    }

    /// The maintained top list, verbatim: an O(K) read, no recomputation.
    pub fn get_top_hotspots(&self) -> (r: Vec<HotSpot>)
        ensures
            zone_views(r@) == self@.zones,
    {
        let mut r: Vec<HotSpot> = Vec::new();
        let mut i: usize = 0;
        while i < self.hotzones.len()
            invariant
                0 <= i <= self@.zones.len(),
                r@.len() == i,
                forall|j: int| 0 <= j < i ==> (#[trigger] r@[j])@ == self@.zones[j],
            decreases self@.zones.len() - i,
        {
            r.push(spot_copy(&self.hotzones[i]));
            i = i + 1;
        }
        proof {
            assert(zone_views(r@) =~= self@.zones);
        }
        r
    }
}

/// The tracker after `n` repeated observations of one key.
pub open spec fn iter_insert(v: TrackerView, g: Seq<char>, n: nat) -> TrackerView
    decreases n,
{
    if n == 0 {
        v
    } else {
        spec_hotspot_insert(iter_insert(v, g, (n - 1) as nat), g)
    }
}

/// One observation moves its own coarse count up by one and leaves every
/// other count alone.
pub proof fn lemma_insert_count_step(v: TrackerView, g: Seq<char>)
    requires
        bucket_wf(v.counts),
        counts_value(v.counts, coarse(g)) < u32::MAX,
    ensures
        counts_value(spec_hotspot_insert(v, g).counts, coarse(g)) == counts_value(
            v.counts,
            coarse(g),
        ) + 1,
        forall|k: Seq<char>|
            k != coarse(g) ==> counts_value(spec_hotspot_insert(v, g).counts, k) == counts_value(
                v.counts,
                k,
            ),
        bucket_wf(spec_hotspot_insert(v, g).counts),
{
    let c = coarse(g);
    let i = key_index(v.counts, c);
    lemma_key_index(v.counts, c);
    let cs2 = spec_hotspot_insert(v, g).counts;
    lemma_key_index(cs2, c);
    if i < v.counts.len() {
        assert(forall|j: int| 0 <= j < v.counts.len() ==> cs2[j].0 == v.counts[j].0);
        assert(cs2[i].0 == c);
        assert(key_index(cs2, c) <= i);
        if key_index(cs2, c) < i {
            assert(cs2[key_index(cs2, c)].0 == c);
            assert(v.counts[key_index(cs2, c)].0 == c);
        }
        assert(key_index(cs2, c) == i);
        assert forall|a: int, b: int| 0 <= a < b < cs2.len() implies cs2[a].0 != cs2[b].0 by {
            assert(cs2[a].0 == v.counts[a].0 && cs2[b].0 == v.counts[b].0);
        }
        assert forall|k: Seq<char>| k != c implies counts_value(cs2, k) == counts_value(
            v.counts,
            k,
        ) by {
            lemma_key_index(v.counts, k);
            lemma_key_index(cs2, k);
            if has_key(v.counts, k) {
                let jk = key_index(v.counts, k);
                assert(cs2[jk].0 == k);
                assert(key_index(cs2, k) == jk);
            } else {
                if has_key(cs2, k) {
                    assert(cs2[key_index(cs2, k)].0 == k);
                    assert(v.counts[key_index(cs2, k)].0 == k);
                }
            }
        }
    } else {
        assert(forall|j: int| 0 <= j < v.counts.len() ==> cs2[j].0 == v.counts[j].0);
        assert(cs2[v.counts.len() as int].0 == c);
        assert(key_index(cs2, c) == v.counts.len());
        assert forall|a: int, b: int| 0 <= a < b < cs2.len() implies cs2[a].0 != cs2[b].0 by {
            if b < v.counts.len() {
                assert(cs2[a].0 == v.counts[a].0 && cs2[b].0 == v.counts[b].0);
            } else {
                assert(cs2[a].0 == v.counts[a].0);
                assert(cs2[b].0 == c);
            }
        }
        assert forall|k: Seq<char>| k != c implies counts_value(cs2, k) == counts_value(
            v.counts,
            k,
        ) by {
            lemma_key_index(v.counts, k);
            lemma_key_index(cs2, k);
            if has_key(v.counts, k) {
                let jk = key_index(v.counts, k);
                assert(cs2[jk].0 == k);
                assert(key_index(cs2, k) == jk);
            } else {
                if has_key(cs2, k) {
                    let jk = key_index(cs2, k);
                    assert(cs2[jk].0 == k);
                    assert(jk != v.counts.len());
                    assert(v.counts[jk].0 == k);
                }
            }
        }
    }
}

/// One observation keeps the top list's length and sortedness, keeps its
/// own cell on the list, and puts the cell on the list whenever its new
/// count beats the weakest listed power.
proof fn lemma_insert_zone_step(v: TrackerView, g: Seq<char>)
    requires
        sorted_desc(v.zones),
        counts_value(v.counts, coarse(g)) < u32::MAX,
    ensures
        spec_hotspot_insert(v, g).zones.len() == v.zones.len(),
        sorted_desc(spec_hotspot_insert(v, g).zones),
        in_zones(v.zones, coarse(g)) ==> in_zones(spec_hotspot_insert(v, g).zones, coarse(g)),
        !in_zones(v.zones, coarse(g)) && v.zones.len() > 0 && counts_value(v.counts, coarse(g)) + 1
            > v.zones.last().power ==> in_zones(spec_hotspot_insert(v, g).zones, coarse(g)),
{
    broadcast use group_to_multiset_ensures;

    let c = coarse(g);
    let n = counts_value(v.counts, c) + 1;
    let zi = zone_index(v.zones, c);
    lemma_key_index(v.counts, c);
    lemma_zone_index(v.zones, c);
    let zs2 = spec_hotspot_insert(v, g).zones;
    if zi < v.zones.len() {
        let u = v.zones.update(zi, Spot { geo: c, power: n as u32 });
        lemma_sort_desc_props(u);
        assert(u.to_multiset().count(Spot { geo: c, power: n as u32 }) > 0) by {
            assert(u[zi] == Spot { geo: c, power: n as u32 });
            assert(u.contains(Spot { geo: c, power: n as u32 }));
        }
        assert(zs2.contains(Spot { geo: c, power: n as u32 }));
        let w = choose|w: int| 0 <= w < zs2.len() && zs2[w] == Spot { geo: c, power: n as u32 };
        lemma_zone_index(zs2, c);
        assert(zone_index(zs2, c) <= w);
    } else if v.zones.len() > 0 && n > v.zones.last().power {
        let u = v.zones.drop_last().push(Spot { geo: c, power: n as u32 });
        lemma_sort_desc_props(u);
        assert(u.to_multiset().count(Spot { geo: c, power: n as u32 }) > 0) by {
            assert(u[u.len() - 1] == Spot { geo: c, power: n as u32 });
            assert(u.contains(Spot { geo: c, power: n as u32 }));
        }
        assert(zs2.contains(Spot { geo: c, power: n as u32 }));
        let w = choose|w: int| 0 <= w < zs2.len() && zs2[w] == Spot { geo: c, power: n as u32 };
        lemma_zone_index(zs2, c);
        assert(zone_index(zs2, c) <= w);
    }
}

/// Hotspot monotonicity: observing the same key `n` times, starting from a
/// healthy tracker that has never counted its coarse cell, leaves the cell
/// with a tracked count of exactly `n`; and the cell is on the top list as
/// soon as its count beats the weakest power listed just before the last
/// observation, or once it was on the list and the observations continue.
pub proof fn lemma_hotspot_monotonicity(v: TrackerView, g: Seq<char>, n: nat)
    requires
        tracker_wf(v),
        !has_key(v.counts, coarse(g)),
        n <= u32::MAX,
    ensures
        counts_value(iter_insert(v, g, n).counts, coarse(g)) == n,
        tracker_wf(iter_insert(v, g, n)),
        n >= 1 && n > iter_insert(v, g, (n - 1) as nat).zones.last().power ==> in_zones(
            iter_insert(v, g, n).zones,
            coarse(g),
        ),
        n >= 1 && in_zones(iter_insert(v, g, (n - 1) as nat).zones, coarse(g)) ==> in_zones(
            iter_insert(v, g, n).zones,
            coarse(g),
        ),
    decreases n,
{
    lemma_key_index(v.counts, coarse(g));
    if n > 0 {
        lemma_hotspot_monotonicity(v, g, (n - 1) as nat);
        let prev = iter_insert(v, g, (n - 1) as nat);
        lemma_insert_count_step(prev, g);
        lemma_insert_zone_step(prev, g);
    }
}

/// Symmetry: recording one observation and removing it at once restores
/// the counts exactly and the top list up to the order of equal powers,
/// provided the cell was tracked consistently before: it has a count, it
/// sits on the top list exactly once, and its listed power equals that
/// count.
pub proof fn lemma_insert_remove_symmetry(v: TrackerView, g: Seq<char>)
    requires
        tracker_wf(v),
        has_key(v.counts, coarse(g)),
        counts_value(v.counts, coarse(g)) < u32::MAX,
        in_zones(v.zones, coarse(g)),
        forall|j: int|
            0 <= j < v.zones.len() && (#[trigger] v.zones[j]).geo == coarse(g) ==> j == zone_index(
                v.zones,
                coarse(g),
            ),
        v.zones[zone_index(v.zones, coarse(g))].power == counts_value(v.counts, coarse(g)),
    ensures
        spec_hotspot_remove(spec_hotspot_insert(v, g), g).counts == v.counts,
        spec_hotspot_remove(spec_hotspot_insert(v, g), g).zones.to_multiset()
            == v.zones.to_multiset(),
        sorted_desc(spec_hotspot_remove(spec_hotspot_insert(v, g), g).zones),
{
    broadcast use group_to_multiset_ensures;

    let c = coarse(g);
    let i = key_index(v.counts, c);
    let zi = zone_index(v.zones, c);
    lemma_key_index(v.counts, c);
    lemma_zone_index(v.zones, c);
    let p = v.counts[i].1;
    let fresh = Spot { geo: c, power: (p + 1) as u32 };
    let v1 = spec_hotspot_insert(v, g);

    // the counts after the insertion still find the key at the same place
    assert(forall|j: int| 0 <= j < v.counts.len() ==> v1.counts[j].0 == v.counts[j].0);
    lemma_key_index(v1.counts, c);
    assert(v1.counts[i].0 == c);
    assert(key_index(v1.counts, c) == i);
    assert(v1.counts[i].1 == p + 1);

    // the top list after the insertion holds the refreshed entry, and no
    // other entry of this cell
    let u = v.zones.update(zi, fresh);
    lemma_sort_desc_props(u);
    assert(u[zi] == fresh);
    assert(u.contains(fresh));
    assert(u.to_multiset().count(fresh) > 0);
    assert(v1.zones.to_multiset().count(fresh) > 0);
    assert(v1.zones.contains(fresh));
    assert forall|x: Spot| v1.zones.contains(x) && x.geo == c implies x == fresh by {
        assert(u.to_multiset().count(x) > 0);
        assert(u.contains(x));
        let k = choose|k: int| 0 <= k < u.len() && u[k] == x;
        if k != zi {
            assert(u[k] == v.zones[k]);
            assert(k == zi);
        }
    }
    lemma_zone_index(v1.zones, c);
    let zi2 = zone_index(v1.zones, c);
    assert(v1.zones.contains(v1.zones[zi2]));
    assert(v1.zones[zi2] == fresh);

    let v2 = spec_hotspot_remove(v1, g);

    // the counts come back exactly
    assert(v.zones[zi].geo == c);
    assert(v.counts[i].0 == c);
    assert(v2.counts =~= v.counts);

    // the top list comes back as a multiset
    let u2 = v1.zones.update(zi2, Spot { geo: c, power: p });
    lemma_sort_desc_props(u2);
    assert(v.zones[zi] =~= (Spot { geo: c, power: p }));
    assert(v2.zones.to_multiset() =~= v.zones.to_multiset());
}

/// The persisted snapshot of the top list, cached after each bulk import
/// for O(1) reads.
#[derive(Clone, Debug)]
pub struct HotSpots(pub Vec<HotSpot>);

impl View for HotSpots {
    type V = Seq<Spot>;

    open spec fn view(&self) -> Seq<Spot> {
        zone_views(self.0@)
    }
}

} // verus!
