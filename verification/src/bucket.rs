//! Day buckets: one fixed storage slot per retained day, each holding the
//! observations of its day grouped by geohash key.

use crate::geohash::{spec_neighbor, valid_geohash, GeoError, GeoLocationTime};
use crate::pointer::{
    capacity_bounded, is_partition, lemma_sort_sorted_id, sorted_by_start, Pointer, Pointers,
    ONE_DAY,
};
use vstd::prelude::*;

verus! {

/// The fourteen fixed bucket slots. Slots are never created or destroyed;
/// rotation only reassigns their time windows and clears their content.
#[derive(Clone, Copy, Debug, PartialEq, Eq, Hash, Structural)]
pub enum BucketName {
    One,
    Two,
    Three,
    Four,
    Five,
    Six,
    Seven,
    Eight,
    Nine,
    Ten,
    Eleven,
    Twelve,
    Thirteen,
    Fourteen,
}

/// The position of a slot in the fixed slot list.
pub open spec fn bucket_index(b: BucketName) -> int {
    match b {
        BucketName::One => 0,
        BucketName::Two => 1,
        BucketName::Three => 2,
        BucketName::Four => 3,
        BucketName::Five => 4,
        BucketName::Six => 5,
        BucketName::Seven => 6,
        BucketName::Eight => 7,
        BucketName::Nine => 8,
        BucketName::Ten => 9,
        BucketName::Eleven => 10,
        BucketName::Twelve => 11,
        BucketName::Thirteen => 12,
        BucketName::Fourteen => 13,
    }
}

/// All fourteen slots in their fixed order.
pub open spec fn bucket_names() -> Seq<BucketName> {
    seq![
        BucketName::One,
        BucketName::Two,
        BucketName::Three,
        BucketName::Four,
        BucketName::Five,
        BucketName::Six,
        BucketName::Seven,
        BucketName::Eight,
        BucketName::Nine,
        BucketName::Ten,
        BucketName::Eleven,
        BucketName::Twelve,
        BucketName::Thirteen,
        BucketName::Fourteen,
    ]
}

impl BucketName {
    /// The position of this slot in the fixed slot list.
    pub fn index(&self) -> (i: usize)
        ensures
            i == bucket_index(*self),
            i < 14,
    {
        match self {
            BucketName::One => 0,
            BucketName::Two => 1,
            BucketName::Three => 2,
            BucketName::Four => 3,
            BucketName::Five => 4,
            BucketName::Six => 5,
            BucketName::Seven => 6,
            BucketName::Eight => 7,
            BucketName::Nine => 8,
            BucketName::Ten => 9,
            BucketName::Eleven => 10,
            BucketName::Twelve => 11,
            BucketName::Thirteen => 12,
            BucketName::Fourteen => 13,
        }
    }

    /// All fourteen slot names, in their fixed order.
    pub fn iterator() -> (v: Vec<BucketName>)
        ensures
            v@ == bucket_names(),
    {
        let mut v: Vec<BucketName> = Vec::new();
        v.push(BucketName::One);
        v.push(BucketName::Two);
        v.push(BucketName::Three);
        v.push(BucketName::Four);
        v.push(BucketName::Five);
        v.push(BucketName::Six);
        v.push(BucketName::Seven);
        v.push(BucketName::Eight);
        v.push(BucketName::Nine);
        v.push(BucketName::Ten);
        v.push(BucketName::Eleven);
        v.push(BucketName::Twelve);
        v.push(BucketName::Thirteen);
        v.push(BucketName::Fourteen);
        proof {
            assert(v@ =~= bucket_names());
        }
        v
    }
}

/// The ordered timestamps seen at one geohash key.
#[derive(Clone, Debug)]
pub struct Times(pub Vec<u64>);

impl View for Times {
    type V = Seq<u64>;

    open spec fn view(&self) -> Seq<u64> {
        self.0@
    }
}

impl Default for Times {
    /// No timestamps yet.
    fn default() -> (r: Self)
        ensures
            r@ == Seq::<u64>::empty(),
    {
        let r = Times(Vec::new());
        proof {
            assert(r@ =~= Seq::<u64>::empty());
        }
        r
    }
}

/// One day's observations, grouped by geohash key. The bucket knows nothing
/// of its time window; the pointer table routes timestamps to it.
#[derive(Clone, Debug)]
pub struct DailyBucket {
    pub locations: Vec<(String, Times)>,
}

impl View for DailyBucket {
    type V = Seq<(Seq<char>, Seq<u64>)>;

    open spec fn view(&self) -> Seq<(Seq<char>, Seq<u64>)> {
        Seq::new(self.locations@.len(), |i: int| (self.locations@[i].0@, self.locations@[i].1@))
    }
}

/// Each geohash key appears in at most one entry of a key-value list.
pub open spec fn bucket_wf<V>(es: Seq<(Seq<char>, V)>) -> bool {
    forall|i: int, j: int| 0 <= i < j < es.len() ==> es[i].0 != es[j].0
}

/// The index of the first entry with a key, or the entry count when the key
/// is absent.
pub open spec fn key_index<V>(es: Seq<(Seq<char>, V)>, k: Seq<char>) -> int
    decreases es.len(),
{
    if es.len() == 0 {
        0
    } else if es.first().0 == k {
        0
    } else {
        1 + key_index(es.drop_first(), k)
    }
}

/// Whether some entry carries the key.
pub open spec fn has_key<V>(es: Seq<(Seq<char>, V)>, k: Seq<char>) -> bool {
    key_index(es, k) < es.len()
}

/// [`key_index`] points at the first entry with the key.
pub proof fn lemma_key_index<V>(es: Seq<(Seq<char>, V)>, k: Seq<char>)
    ensures
        0 <= key_index(es, k) <= es.len(),
        key_index(es, k) < es.len() ==> es[key_index(es, k)].0 == k,
        forall|j: int| 0 <= j < key_index(es, k) ==> es[j].0 != k,
        forall|j: int| 0 <= j < es.len() && es[j].0 == k ==> key_index(es, k) <= j,
    decreases es.len(),
{
    if es.len() > 0 && es.first().0 != k {
        let d = es.drop_first();
        lemma_key_index(d, k);
        assert(forall|j: int| 0 <= j < d.len() ==> d[j] == es[j + 1]);
        assert forall|j: int| 0 <= j < key_index(es, k) implies es[j].0 != k by {
            if j > 0 {
                assert(d[j - 1].0 != k);
            }
        }
        assert forall|j: int| 0 <= j < es.len() && es[j].0 == k implies key_index(es, k) <= j by {
            if j > 0 {
                assert(d[j - 1].0 == k);
            }
        }
    }
}

/// The bucket after recording one observation: the timestamp is appended to
/// its key's entry, or a fresh entry is started for a new key.
pub open spec fn spec_bucket_insert(
    es: Seq<(Seq<char>, Seq<u64>)>,
    g: Seq<char>,
    t: u64,
) -> Seq<(Seq<char>, Seq<u64>)> {
    let i = key_index(es, g);
    if i < es.len() {
        es.update(i, (g, es[i].1.push(t)))
    } else {
        es.push((g, seq![t]))
    }
}

/// Whether any timestamp of a run opens a window of length `period` that
/// covers the queried time.
pub open spec fn times_overlap(ts: Seq<u64>, time: u64, period: u64) -> bool {
    exists|j: int| 0 <= j < ts.len() && (#[trigger] ts[j]) <= time <= ts[j] + period
}

/// Whether the bucket holds, under exactly this key, a timestamp whose
/// forward window covers the queried time.
pub open spec fn spec_does_time_overlap(
    es: Seq<(Seq<char>, Seq<u64>)>,
    g: Seq<char>,
    time: u64,
    period: u64,
) -> bool {
    has_key(es, g) && times_overlap(es[key_index(es, g)].1, time, period)
}

/// The `k`-th of the eight neighbor keys, in the fixed order north,
/// north-east, east, south-east, south, south-west, west, north-west.
pub open spec fn neighbor_key(g: Seq<char>, k: int) -> Seq<char> {
    if k == 0 { spec_neighbor(g, 0, 1) } else if k == 1 { spec_neighbor(g, 1, 1) } else if k == 2 {
        spec_neighbor(g, 1, 0)
    } else if k == 3 { spec_neighbor(g, 1, -1) } else if k == 4 {
        spec_neighbor(g, 0, -1)
    } else if k == 5 { spec_neighbor(g, -1, -1) } else if k == 6 {
        spec_neighbor(g, -1, 0)
    } else { spec_neighbor(g, -1, 1) }
}

/// Whether the bucket overlaps the queried time under any of the eight
/// neighbors of a key.
pub open spec fn any_neighbor_overlap(
    es: Seq<(Seq<char>, Seq<u64>)>,
    g: Seq<char>,
    time: u64,
    period: u64,
) -> bool {
    exists|k: int| 0 <= k < 8 && spec_does_time_overlap(es, neighbor_key(g, k), time, period)
}

impl DailyBucket {
    /// An empty bucket.
    pub fn new() -> (r: DailyBucket)
        ensures
            r@ == Seq::<(Seq<char>, Seq<u64>)>::empty(),
            bucket_wf(r@),
    {
        let r = DailyBucket { locations: Vec::new() };
        proof {
            assert(r@ =~= Seq::<(Seq<char>, Seq<u64>)>::empty());
        }
        r
    }

    /// The index of the first entry carrying the key, if any.
    fn find_entry(&self, ghash: &String) -> (r: Option<usize>)
        ensures
            r is Some ==> r.unwrap() == key_index(self@, ghash@) && has_key(self@, ghash@),
            r is None ==> !has_key(self@, ghash@),
    {
        let mut i: usize = 0;
        while i < self.locations.len()
            invariant
                0 <= i <= self@.len(),
                forall|j: int| 0 <= j < i ==> (#[trigger] self@[j]).0 != ghash@,
            decreases self@.len() - i,
        {
            let e = &self.locations[i];
            if e.0 == *ghash {
                proof {
                    lemma_key_index(self@, ghash@);
                    assert(self@[i as int].0 == ghash@);
                }
                return Some(i);
            }
            i = i + 1;
        }
        proof {
            lemma_key_index(self@, ghash@);
            if has_key(self@, ghash@) {
                assert(self@[key_index(self@, ghash@)].0 == ghash@);
            }
        }
        None
    }

    /// Records one observation: appends its timestamp under its geohash key,
    /// starting the key's entry if this is its first observation.
    pub fn insert_data_point(&mut self, geotime: GeoLocationTime)
        ensures
            final(self)@ == spec_bucket_insert(old(self)@, geotime.geohash@, geotime.timestamp_ms),
            bucket_wf(old(self)@) ==> bucket_wf(final(self)@),
    {
        let ghost before = self@;
        let ghost g = geotime.geohash@;
        let ghost t = geotime.timestamp_ms;
        proof {
            lemma_key_index(before, g);
        }
        let found = self.find_entry(&geotime.geohash);
        match found {
            Some(i) => {
                let entry = vstd::std_specs::vec::vec_index_mut(&mut self.locations, i);
                entry.1.0.push(geotime.timestamp_ms);
                proof {
                    assert(self@ =~= spec_bucket_insert(before, g, t));
                    if bucket_wf(before) {
                        assert forall|a: int, b: int| 0 <= a < b < self@.len() implies self@[a].0
                            != self@[b].0 by {
                            assert(self@[a].0 == before[a].0 && self@[b].0 == before[b].0);
                        }
                    }
                }
            },
            None => {
                let mut ts: Vec<u64> = Vec::new();
                ts.push(geotime.timestamp_ms);
                self.locations.push((geotime.geohash, Times(ts)));
                proof {
                    assert(ts@ =~= seq![t]);
                    assert(self@ =~= spec_bucket_insert(before, g, t));
                    if bucket_wf(before) {
                        assert forall|a: int, b: int| 0 <= a < b < self@.len() implies self@[a].0
                            != self@[b].0 by {
                            if b == self@.len() - 1 {
                                assert(self@[a].0 == before[a].0);
                                assert(self@[b].0 == g);
                            } else {
                                assert(self@[a].0 == before[a].0 && self@[b].0 == before[b].0);
                            }
                        }
                    }
                }
            },
        }
    }
}

impl DailyBucket {
    /// Whether any timestamp stored under exactly this key opens a window
    /// of `period` milliseconds that covers the queried time. Unknown keys
    /// simply do not overlap.
    pub fn _does_time_overlap(&self, ghash: &String, time: u64, period: u64) -> (r: bool)
        ensures
            r == spec_does_time_overlap(self@, ghash@, time, period),
    {
        let found = self.find_entry(ghash);
        match found {
            Some(i) => {
                let times = &self.locations[i].1;
                let mut j: usize = 0;
                while j < times.0.len()
                    invariant
                        0 <= j <= times@.len(),
                        times@ == self@[key_index(self@, ghash@)].1,
                        key_index(self@, ghash@) < self@.len(),
                        forall|x: int|
                            0 <= x < j ==> !((#[trigger] times@[x]) <= time <= times@[x] + period),
                    decreases times@.len() - j,
                {
                    let t = times.0[j];
                    if time >= t && time - t <= period {
                        return true;
                    }
                    j = j + 1;
                }
                false
            },
            None => false,
        }
    }

    /// Whether the bucket overlaps the queried time at this key or at any
    /// of its eight neighboring cells. A malformed key is rejected, unless
    /// the exact key already overlaps.
    pub fn match_pos(&self, ghash: &String, time: u64, period: u64) -> (r: Result<
        bool,
        GeoError,
    >)
        ensures
            spec_does_time_overlap(self@, ghash@, time, period) ==> r == Result::<
                bool,
                GeoError,
            >::Ok(true),
            !spec_does_time_overlap(self@, ghash@, time, period) && !valid_geohash(ghash@) ==> r
                == Result::<bool, GeoError>::Err(GeoError::Decoding),
            !spec_does_time_overlap(self@, ghash@, time, period) && valid_geohash(ghash@) ==> r
                == Result::<bool, GeoError>::Ok(
                any_neighbor_overlap(self@, ghash@, time, period),
            ),
    {
        if self._does_time_overlap(ghash, time, period) {
            return Ok(true);
        }
        let positions = match crate::geohash::neighbors(ghash) {
            Ok(positions) => positions,
            Err(_) => {
                return Err(GeoError::Decoding);
            },
        };
        proof {
            assert forall|k: int| 0 <= k < 8 implies (#[trigger] positions@[k])@ == neighbor_key(
                ghash@,
                k,
            ) by {
                if k == 0 {
                } else if k == 1 {
                } else if k == 2 {
                } else if k == 3 {
                } else if k == 4 {
                } else if k == 5 {
                } else if k == 6 {
                } else {
                    assert(k == 7);
                }
            }
        }
        let mut k: usize = 0;
        while k < 8
            invariant
                0 <= k <= 8,
                valid_geohash(ghash@),
                !spec_does_time_overlap(self@, ghash@, time, period),
                positions@.len() == 8,
                forall|x: int| 0 <= x < 8 ==> (#[trigger] positions@[x])@ == neighbor_key(ghash@, x),
                forall|x: int|
                    0 <= x < k ==> !spec_does_time_overlap(
                        self@,
                        neighbor_key(ghash@, x),
                        time,
                        period,
                    ),
            decreases 8 - k,
        {
            if self._does_time_overlap(&positions[k], time, period) {
                return Ok(true);
            }
            k = k + 1;
        }
        Ok(false)
    }

    /// Drops every stored entry; rotation uses this to recycle a slot.
    pub fn clear(&mut self)
        ensures
            final(self)@ == Seq::<(Seq<char>, Seq<u64>)>::empty(),
            bucket_wf(final(self)@),
    {
        self.locations.clear();
        proof {
            assert(self@ =~= Seq::<(Seq<char>, Seq<u64>)>::empty());
        }
    }
}

impl Default for DailyBucket {
    /// An empty bucket.
    fn default() -> (r: DailyBucket)
        ensures
            r@ == Seq::<(Seq<char>, Seq<u64>)>::empty(),
            bucket_wf(r@),
    {
        DailyBucket::new()
    }
}

/// A point just recorded always matches its own cell: after inserting an
/// observation, an overlap query at the same key and timestamp succeeds for
/// any non-negative period, before any neighbor is even consulted.
pub proof fn lemma_insert_then_match(es: Seq<(Seq<char>, Seq<u64>)>, g: Seq<char>, t: u64, p: u64)
    ensures
        spec_does_time_overlap(spec_bucket_insert(es, g, t), g, t, p),
{
    let es2 = spec_bucket_insert(es, g, t);
    let i = key_index(es, g);
    lemma_key_index(es, g);
    lemma_key_index(es2, g);
    if i < es.len() {
        assert(es2[i].0 == g);
        assert(forall|j: int| 0 <= j < i ==> es2[j].0 == es[j].0);
        assert(key_index(es2, g) == i);
        let ts = es2[i].1;
        assert(ts == es[i].1.push(t));
        assert(ts[ts.len() - 1] == t);
        assert(ts[ts.len() - 1] <= t <= ts[ts.len() - 1] + p);
    } else {
        assert(es2[es.len() as int].0 == g);
        assert(forall|j: int| 0 <= j < es.len() ==> es2[j].0 == es[j].0);
        assert(key_index(es2, g) == es.len());
        let ts = es2[es.len() as int].1;
        assert(ts == seq![t]);
        assert(ts[0] <= t <= ts[0] + p);
    }
}

/// The fourteen day buckets, one per slot, indexed by slot position.
#[derive(Clone, Debug)]
pub struct Buckets(pub Vec<DailyBucket>);

impl View for Buckets {
    type V = Seq<Seq<(Seq<char>, Seq<u64>)>>;

    open spec fn view(&self) -> Seq<Seq<(Seq<char>, Seq<u64>)>> {
        Seq::new(self.0@.len(), |i: int| self.0@[i]@)
    }
}

/// Fourteen buckets, each with uniquely keyed entries.
pub open spec fn buckets_wf(v: Seq<Seq<(Seq<char>, Seq<u64>)>>) -> bool {
    v.len() == 14 && forall|i: int| 0 <= i < 14 ==> bucket_wf(#[trigger] v[i])
}

impl Buckets {
    /// Fourteen empty buckets.
    pub fn new() -> (r: Buckets)
        ensures
            r@.len() == 14,
            forall|i: int| 0 <= i < 14 ==> (#[trigger] r@[i]) == Seq::<(Seq<char>, Seq<u64>)>::empty(),
            buckets_wf(r@),
    {
        let mut v: Vec<DailyBucket> = Vec::new();
        let mut i: usize = 0;
        while i < 14
            invariant
                0 <= i <= 14,
                v@.len() == i,
                forall|j: int| 0 <= j < i ==> (#[trigger] v@[j])@ == Seq::<(Seq<char>, Seq<u64>)>::empty(),
            decreases 14 - i,
        {
            v.push(DailyBucket::new());
            i = i + 1;
        }
        Buckets(v)
    }
}

/// The window a fresh table assigns to its `i`-th slot: one day long,
/// starting one millisecond after the previous slot's window ends.
pub open spec fn init_pointer(start_time: u64, i: int) -> Pointer {
    Pointer {
        start_time: (start_time + i * (ONE_DAY + 1)) as u64,
        end_time: (start_time + i * (ONE_DAY + 1) + ONE_DAY) as u64,
        bucket: bucket_names()[i],
    }
}

/// Builds the pointer table of a fresh store: fourteen one-day windows
/// starting at `start_time`, one slot each, tiling the next fourteen days.
pub fn initialize_buckets(start_time: u64) -> (r: Pointers)
    requires
        start_time + 14 * ONE_DAY + 14 <= u64::MAX,
    ensures
        r@.len() == 14,
        forall|i: int| 0 <= i < 14 ==> (#[trigger] r@[i]) == init_pointer(start_time, i),
        is_partition(r@),
        capacity_bounded(r@),
{
    let names = BucketName::iterator();
    let mut cur_time: u64 = start_time;
    let mut pointers = Pointers::default();
    let mut i: usize = 0;
    while i < names.len()
        invariant
            names@ == bucket_names(),
            0 <= i <= 14,
            start_time + 14 * ONE_DAY + 14 <= u64::MAX,
            cur_time == start_time + i * (ONE_DAY + 1),
            pointers@.len() == i,
            forall|k: int| 0 <= k < i ==> pointers@[k] == init_pointer(start_time, k),
            sorted_by_start(pointers@),
        decreases 14 - i,
    {
        let name = names[i];
        proof {
            assert(i * (ONE_DAY + 1) + (ONE_DAY + 1) == (i + 1) * (ONE_DAY + 1))
                by (nonlinear_arith);
            assert(i * (ONE_DAY + 1) <= 13 * (ONE_DAY + 1)) by (nonlinear_arith)
                requires
                    0 <= i <= 13,
            ;
        }
        let new_pointer = Pointer {
            start_time: cur_time,
            end_time: cur_time + ONE_DAY,
            bucket: name,
        };
        cur_time = cur_time + ONE_DAY + 1;
        proof {
            assert forall|k: int| 0 <= k < pointers@.len() implies pointers@[k].start_time
                <= new_pointer.start_time by {
                assert(pointers@[k] == init_pointer(start_time, k));
                assert(k * (ONE_DAY + 1) <= i * (ONE_DAY + 1)) by (nonlinear_arith)
                    requires
                        0 <= k <= i,
                ;
            }
            lemma_sort_sorted_id(pointers@.push(new_pointer));
        }
        pointers.insert(new_pointer);
        i = i + 1;
    }
    proof {
        assert forall|k: int| 0 <= k < 14 implies pointers@[k].start_time as int == start_time + k
            * (ONE_DAY + 1) && pointers@[k].end_time as int == start_time + k * (ONE_DAY + 1)
            + ONE_DAY by {
            assert(pointers@[k] == init_pointer(start_time, k));
            assert(0 * (ONE_DAY + 1) <= k * (ONE_DAY + 1) <= 13 * (ONE_DAY + 1))
                by (nonlinear_arith)
                requires
                    0 <= k <= 13,
            ;
        }
        assert forall|k: int| 0 <= k < 13 implies (#[trigger] pointers@[k + 1]).start_time
            == pointers@[k].end_time + 1 by {
            assert(k * (ONE_DAY + 1) + (ONE_DAY + 1) == (k + 1) * (ONE_DAY + 1))
                by (nonlinear_arith);
        }
        assert(pointers@[13].start_time as int == start_time + 13 * (ONE_DAY + 1));
        assert(pointers@[0].start_time == start_time);
    }
    pointers
}

} // verus!
