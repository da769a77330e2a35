//! The pointer table: fourteen time windows, kept sorted by start time, each
//! binding one day-long window of timestamps to a bucket slot.

use crate::bucket::{bucket_index, bucket_names, BucketName};
use vstd::multiset::Multiset;
use vstd::prelude::*;
use vstd::seq_lib::group_seq_properties;

verus! {

/// Length of one day in milliseconds.
pub const ONE_DAY: u64 = 1000 * 60 * 60 * 24;

/// One time window: timestamps from `start_time` through `end_time`, both
/// inclusive, belong to bucket slot `bucket`.
#[derive(Clone, Copy, Debug, PartialEq, Eq, Structural)]
pub struct Pointer {
    pub start_time: u64,
    pub end_time: u64,
    pub bucket: BucketName,
}

/// Whether a timestamp falls inside a pointer's window.
pub open spec fn in_window(p: Pointer, t: u64) -> bool {
    p.start_time <= t <= p.end_time
}

/// The table of windows that makes buckets addressable by timestamp.
#[derive(Clone, Debug)]
pub struct Pointers(pub Vec<Pointer>);

impl View for Pointers {
    type V = Seq<Pointer>;

    open spec fn view(&self) -> Seq<Pointer> {
        self.0@
    }
}

/// Windows in non-decreasing order of start time.
pub open spec fn sorted_by_start(s: Seq<Pointer>) -> bool {
    forall|i: int, j: int| 0 <= i < j < s.len() ==> s[i].start_time <= s[j].start_time
}

/// Places a window into a sorted run, after every window that starts no
/// later than it.
pub open spec fn insert_sorted(s: Seq<Pointer>, p: Pointer) -> Seq<Pointer>
    decreases s.len(),
{
    if s.len() == 0 {
        seq![p]
    } else if s.last().start_time <= p.start_time {
        s.push(p)
    } else {
        insert_sorted(s.drop_last(), p).push(s.last())
    }
}

/// Insertion sort of windows by start time, keeping the relative order of
/// windows that start together.
pub open spec fn sort_ptrs(s: Seq<Pointer>) -> Seq<Pointer>
    decreases s.len(),
{
    if s.len() == 0 {
        Seq::empty()
    } else {
        insert_sorted(sort_ptrs(s.drop_last()), s.last())
    }
}

/// The slot of the first window, in table order, that contains a timestamp.
pub open spec fn spec_find_bucket(s: Seq<Pointer>, t: u64) -> Option<BucketName>
    decreases s.len(),
{
    if s.len() == 0 {
        Option::None
    } else if in_window(s.first(), t) {
        Option::Some(s.first().bucket)
    } else {
        spec_find_bucket(s.drop_first(), t)
    }
}

/// Sorted insertion keeps sortedness, adds exactly the new window, and
/// leaves everything before the insertion point alone.
pub proof fn lemma_insert_sorted_props(s: Seq<Pointer>, p: Pointer)
    requires
        sorted_by_start(s),
    ensures
        sorted_by_start(insert_sorted(s, p)),
        insert_sorted(s, p).to_multiset() == s.to_multiset().insert(p),
        insert_sorted(s, p).len() == s.len() + 1,
    decreases s.len(),
{
    broadcast use group_seq_properties;

    if s.len() == 0 {
        assert(seq![p] =~= Seq::<Pointer>::empty().push(p));
        assert(Seq::<Pointer>::empty().to_multiset() =~= Multiset::<Pointer>::empty());
    } else if s.last().start_time <= p.start_time {
    } else {
        lemma_insert_sorted_props(s.drop_last(), p);
        let r = insert_sorted(s.drop_last(), p);
        assert forall|i: int, j: int|
            0 <= i < j < r.push(s.last()).len() implies r.push(s.last())[i].start_time <= r.push(
            s.last(),
        )[j].start_time by {
            if j < r.len() {
            } else {
                // the moved last element is at least as late as everything
                // kept below it, and later than the inserted window
                if i < r.len() {
                    assert(r.to_multiset().count(r[i]) > 0);
                    assert(s.to_multiset().insert(p).count(r[i]) > 0);
                    if r[i] == p {
                    } else {
                        assert(s.to_multiset().count(r[i]) > 0);
                        assert(s.contains(r[i]));
                    }
                }
            }
        }
        assert(s.drop_last().to_multiset().insert(p).insert(s.last()) =~= s.drop_last().push(
            s.last(),
        ).to_multiset().insert(p));
        assert(s.drop_last().push(s.last()) =~= s);
    }
}

/// Sorting sorts, and neither adds nor drops windows.
pub proof fn lemma_sort_ptrs_props(s: Seq<Pointer>)
    ensures
        sorted_by_start(sort_ptrs(s)),
        sort_ptrs(s).to_multiset() == s.to_multiset(),
        sort_ptrs(s).len() == s.len(),
    decreases s.len(),
{
    broadcast use group_seq_properties;

    if s.len() == 0 {
    } else {
        lemma_sort_ptrs_props(s.drop_last());
        lemma_insert_sorted_props(sort_ptrs(s.drop_last()), s.last());
        assert(s.drop_last().push(s.last()) =~= s);
    }
}

/// A freshly initialized table tiles a contiguous interval: fourteen
/// windows, each consecutive pair meeting end to start with the one
/// millisecond step of the `+ 1` boundary convention.
pub open spec fn is_partition(s: Seq<Pointer>) -> bool {
    &&& s.len() == 14
    &&& forall|i: int| 0 <= i < 14 ==> (#[trigger] s[i]).start_time <= s[i].end_time
    &&& forall|i: int| 0 <= i < 13 ==> (#[trigger] s[i + 1]).start_time == s[i].end_time + 1
}

/// The shape every rotation keeps: fourteen sorted windows of exactly one
/// day, whose start times stay within fourteen days of each other.
pub open spec fn capacity_bounded(s: Seq<Pointer>) -> bool {
    &&& s.len() == 14
    &&& sorted_by_start(s)
    &&& forall|i: int| 0 <= i < 14 ==> (#[trigger] s[i]).end_time == s[i].start_time + ONE_DAY
    &&& s[13].start_time - s[0].start_time <= 13 * (ONE_DAY + 1)
}

/// Later windows of a partition lie strictly after earlier ones.
proof fn lemma_partition_ordered(s: Seq<Pointer>, i: int, j: int)
    requires
        is_partition(s),
        0 <= i < j < 14,
    ensures
        s[i].end_time < s[j].start_time,
    decreases j - i,
{
    assert(s[(j - 1) + 1].start_time == s[j - 1].end_time + 1);
    assert(s[j - 1].start_time <= s[j - 1].end_time);
    if j > i + 1 {
        lemma_partition_ordered(s, i, j - 1);
    }
}

/// Every timestamp from a window's start to the table's end lies in some
/// window at or after that one.
proof fn lemma_partition_covers(s: Seq<Pointer>, t: u64, i: int)
    requires
        is_partition(s),
        0 <= i < 14,
        s[i].start_time <= t <= s[13].end_time,
    ensures
        exists|k: int| i <= k < 14 && in_window(#[trigger] s[k], t),
    decreases 14 - i,
{
    if t <= s[i].end_time {
        assert(in_window(s[i], t));
    } else {
        lemma_partition_covers(s, t, i + 1);
        let k = choose|k: int| i + 1 <= k < 14 && in_window(#[trigger] s[k], t);
        assert(i <= k < 14 && in_window(s[k], t));
    }
}

/// Partition resolution: inside the retained interval every timestamp lies
/// in exactly one window, and lookup returns that window's slot; outside it,
/// lookup returns nothing.
pub proof fn lemma_partition_resolution(s: Seq<Pointer>, t: u64)
    requires
        is_partition(s),
    ensures
        s[0].start_time <= t <= s[13].end_time ==> {
            &&& exists|i: int| 0 <= i < 14 && in_window(#[trigger] s[i], t)
            &&& forall|i: int, j: int|
                0 <= i < 14 && 0 <= j < 14 && in_window(s[i], t) && in_window(s[j], t) ==> i == j
            &&& forall|i: int|
                0 <= i < 14 && in_window(#[trigger] s[i], t) ==> spec_find_bucket(s, t)
                    == Option::Some(s[i].bucket)
        },
        !(s[0].start_time <= t <= s[13].end_time) ==> spec_find_bucket(s, t) is None,
{
    assert forall|i: int, j: int|
        0 <= i < 14 && 0 <= j < 14 && in_window(s[i], t) && in_window(s[j], t) implies i == j by {
        if i < j {
            lemma_partition_ordered(s, i, j);
        } else if j < i {
            lemma_partition_ordered(s, j, i);
        }
    }
    if s[0].start_time <= t <= s[13].end_time {
        lemma_partition_covers(s, t, 0);
        lemma_find_bucket_none(s, t);
        let w = choose|k: int| 0 <= k < 14 && in_window(#[trigger] s[k], t);
        assert(!(forall|i: int| 0 <= i < s.len() ==> !in_window(s[i], t)));
        lemma_find_bucket_first(s, t);
    } else {
        assert forall|i: int| 0 <= i < s.len() implies !in_window(s[i], t) by {
            if t < s[0].start_time {
                if i > 0 {
                    lemma_partition_ordered(s, 0, i);
                }
            } else {
                if i < 13 {
                    lemma_partition_ordered(s, i, 13);
                }
            }
        }
        lemma_find_bucket_none(s, t);
    }
}

/// The window that rotation hands the evicted slot: it starts where the
/// earliest retained window ends and runs one day forward.
pub open spec fn rotation_window(s: Seq<Pointer>) -> Pointer {
    Pointer {
        start_time: s[0].end_time,
        end_time: (s[0].end_time + ONE_DAY) as u64,
        bucket: s.last().bucket,
    }
}

/// The pointer table after one rotation: the latest-starting window leaves,
/// and the fresh window is inserted keeping sort order.
pub open spec fn rotated(s: Seq<Pointer>) -> Seq<Pointer> {
    sort_ptrs(s.drop_last().push(rotation_window(s)))
}

/// Rotation capacity: however often the table rotates, it stays fourteen
/// sorted day-long windows spanning at most fourteen days. (Rotation does
/// not keep the windows contiguous, so that part of the partition shape
/// holds only until the first rotation.)
pub proof fn lemma_rotation_capacity(s: Seq<Pointer>)
    requires
        capacity_bounded(s),
        s[0].end_time + ONE_DAY <= u64::MAX,
    ensures
        capacity_bounded(rotated(s)),
        rotated(s).len() == 14,
        rotated(s)[0].start_time == s[0].start_time,
{
    broadcast use vstd::seq_lib::group_to_multiset_ensures;

    let w = rotation_window(s);
    let m = s.drop_last().push(w);
    lemma_sort_ptrs_props(m);
    let r = rotated(s);
    assert(r.len() == 14);
    // the earliest window survives the rotation and stays earliest
    assert(m[0] == s[0]);
    assert(m.contains(s[0]));
    assert(m.to_multiset().count(s[0]) > 0);
    assert(r.to_multiset().count(s[0]) > 0);
    assert(r.contains(s[0]));
    let k0 = choose|k0: int| 0 <= k0 < r.len() && r[k0] == s[0];
    assert(r[0].start_time <= r[k0].start_time);
    assert forall|i: int| 0 <= i < 14 implies {
        &&& (#[trigger] r[i]).end_time == r[i].start_time + ONE_DAY
        &&& s[0].start_time <= r[i].start_time
        &&& r[i].start_time <= s[0].start_time + 13 * (ONE_DAY + 1)
    } by {
        assert(r.to_multiset().count(r[i]) > 0);
        assert(m.to_multiset().count(r[i]) > 0);
        assert(m.contains(r[i]));
        let k = choose|k: int| 0 <= k < m.len() && m[k] == r[i];
        if k < 13 {
            assert(m[k] == s[k]);
        } else {
            assert(m[k] == w);
            assert(s[0].end_time == s[0].start_time + ONE_DAY);
        }
    }
    assert(r[13].start_time - r[0].start_time <= 13 * (ONE_DAY + 1));
}

/// The pointer table after `n` rotations.
pub open spec fn rotate_n(s: Seq<Pointer>, n: nat) -> Seq<Pointer>
    decreases n,
{
    if n == 0 {
        s
    } else {
        rotated(rotate_n(s, (n - 1) as nat))
    }
}

/// Rotation capacity, over any number of days: however often the table
/// rotates, it keeps exactly fourteen sorted day-long windows, anchored at
/// the same earliest start and spanning at most fourteen days from it.
pub proof fn lemma_rotation_capacity_iter(s: Seq<Pointer>, n: nat)
    requires
        capacity_bounded(s),
        s[0].start_time + 14 * ONE_DAY + 14 <= u64::MAX,
    ensures
        capacity_bounded(rotate_n(s, n)),
        rotate_n(s, n).len() == 14,
        rotate_n(s, n)[0].start_time == s[0].start_time,
    decreases n,
{
    if n > 0 {
        lemma_rotation_capacity_iter(s, (n - 1) as nat);
        let prev = rotate_n(s, (n - 1) as nat);
        assert(prev[0].end_time == prev[0].start_time + ONE_DAY);
        lemma_rotation_capacity(prev);
    }
}

/// Sorted insertion at a known index: with everything below the index
/// starting no later than the new window and everything at or above it
/// starting strictly later, insertion is exactly a splice at that index.
pub proof fn lemma_insert_sorted_split(s: Seq<Pointer>, p: Pointer, idx: int)
    requires
        0 <= idx <= s.len(),
        forall|j: int| idx <= j < s.len() ==> s[j].start_time > p.start_time,
        forall|j: int| 0 <= j < idx ==> s[j].start_time <= p.start_time,
    ensures
        insert_sorted(s, p) == s.insert(idx, p),
    decreases s.len(),
{
    if s.len() == 0 {
        assert(insert_sorted(s, p) =~= s.insert(0, p));
    } else if s.last().start_time <= p.start_time {
        assert(idx == s.len());
        assert(s.push(p) =~= s.insert(s.len() as int, p));
    } else {
        assert(idx < s.len());
        lemma_insert_sorted_split(s.drop_last(), p, idx);
        assert(s.drop_last().insert(idx, p).push(s.last()) =~= s.insert(idx, p));
    }
}

/// Sorting an already sorted run changes nothing.
pub proof fn lemma_sort_sorted_id(s: Seq<Pointer>)
    requires
        sorted_by_start(s),
    ensures
        sort_ptrs(s) == s,
    decreases s.len(),
{
    if s.len() > 0 {
        lemma_sort_sorted_id(s.drop_last());
        if s.len() == 1 {
            assert(sort_ptrs(s) =~= s);
        } else {
            assert(s.drop_last().last().start_time <= s.last().start_time);
            assert(s.drop_last().push(s.last()) =~= s);
        }
    }
}

/// The table finds no bucket exactly when no window contains the timestamp.
pub proof fn lemma_find_bucket_none(s: Seq<Pointer>, t: u64)
    ensures
        (spec_find_bucket(s, t) is None) <==> (forall|i: int|
            0 <= i < s.len() ==> !in_window(s[i], t)),
    decreases s.len(),
{
    if s.len() > 0 {
        let d = s.drop_first();
        lemma_find_bucket_none(d, t);
        assert(forall|i: int| 0 <= i < d.len() ==> d[i] == s[i + 1]);
        if in_window(s.first(), t) {
            assert(in_window(s[0], t));
        } else if spec_find_bucket(d, t) is None {
            assert forall|i: int| 0 <= i < s.len() implies !in_window(s[i], t) by {
                if i > 0 {
                    assert(!in_window(d[i - 1], t));
                }
            }
        } else {
            assert(exists|i: int| 0 <= i < d.len() && in_window(d[i], t));
            let k = choose|k: int| 0 <= k < d.len() && in_window(d[k], t);
            assert(in_window(s[k + 1], t));
        }
    }
}

/// When the table finds a bucket, it is the bucket of the first window, in
/// table order, containing the timestamp.
pub proof fn lemma_find_bucket_first(s: Seq<Pointer>, t: u64)
    requires
        spec_find_bucket(s, t) is Some,
    ensures
        exists|i: int|
            {
                &&& 0 <= i < s.len()
                &&& in_window(s[i], t)
                &&& spec_find_bucket(s, t) == Option::Some(s[i].bucket)
                &&& forall|j: int| 0 <= j < i ==> !in_window(s[j], t)
            },
    decreases s.len(),
{
    if in_window(s.first(), t) {
        assert({
            &&& 0 <= 0 < s.len()
            &&& in_window(s[0], t)
            &&& spec_find_bucket(s, t) == Option::Some(s[0].bucket)
            &&& forall|j: int| 0 <= j < 0 ==> !in_window(s[j], t)
        });
    } else {
        lemma_find_bucket_first(s.drop_first(), t);
        let i = choose|i: int|
            {
                &&& 0 <= i < s.drop_first().len()
                &&& in_window(s.drop_first()[i], t)
                &&& spec_find_bucket(s.drop_first(), t) == Option::Some(s.drop_first()[i].bucket)
                &&& forall|j: int| 0 <= j < i ==> !in_window(s.drop_first()[j], t)
            };
        assert(forall|j: int|
            0 <= j < s.drop_first().len() ==> s.drop_first()[j] == s[j + 1]);
        assert forall|j: int| 0 <= j < i + 1 implies !in_window(s[j], t) by {
            if j > 0 {
                assert(!in_window(s.drop_first()[j - 1], t));
            }
        }
        assert({
            &&& 0 <= i + 1 < s.len()
            &&& in_window(s[i + 1], t)
            &&& spec_find_bucket(s, t) == Option::Some(s[i + 1].bucket)
            &&& forall|j: int| 0 <= j < i + 1 ==> !in_window(s[j], t)
        });
    }
}

impl Pointers {
    /// An empty table.
    pub fn new() -> (r: Pointers)
        ensures
            r@ == Seq::<Pointer>::empty(),
    {
        let r = Pointers(Vec::new());
        proof {
            assert(r@ =~= Seq::<Pointer>::empty());
        }
        r
    }

    /// The slot of the first window, in table order, containing the
    /// timestamp, or nothing when the timestamp is outside every window.
    pub fn find_bucket(&self, time: u64) -> (r: Option<BucketName>)
        ensures
            r == spec_find_bucket(self@, time),
    {
        let mut i: usize = 0;
        proof {
            assert(self@.skip(0) =~= self@);
        }
        while i < self.0.len()
            invariant
                0 <= i <= self@.len(),
                spec_find_bucket(self@, time) == spec_find_bucket(self@.skip(i as int), time),
            decreases self@.len() - i,
        {
            let p = self.0[i];
            proof {
                assert(self@.skip(i as int).first() == self@[i as int]);
                assert(self@.skip(i as int).drop_first() =~= self@.skip(i as int + 1));
            }
            if time >= p.start_time && time <= p.end_time {
                return Some(p.bucket);
            }
            i = i + 1;
        }
        None
    }

    /// Sorts the windows by start time, keeping the relative order of
    /// windows that start together.
    pub fn sort(&mut self)
        ensures
            final(self)@ == sort_ptrs(old(self)@),
    {
        let ghost orig = self@;
        let mut out: Vec<Pointer> = Vec::new();
        let mut i: usize = 0;
        proof {
            assert(orig.take(0) =~= Seq::<Pointer>::empty());
        }
        while i < self.0.len()
            invariant
                self@ == orig,
                0 <= i <= orig.len(),
                out@ == sort_ptrs(orig.take(i as int)),
                sorted_by_start(out@),
            decreases orig.len() - i,
        {
            let p = self.0[i];
            let mut idx: usize = out.len();
            while idx > 0 && out[idx - 1].start_time > p.start_time
                invariant
                    0 <= idx <= out@.len(),
                    forall|j: int| idx <= j < out@.len() ==> out@[j].start_time > p.start_time,
                decreases idx,
            {
                idx = idx - 1;
            }
            proof {
                assert forall|j: int| 0 <= j < idx implies out@[j].start_time <= p.start_time by {
                    assert(out@[j].start_time <= out@[idx - 1].start_time);
                }
                lemma_insert_sorted_split(out@, p, idx as int);
                lemma_insert_sorted_props(out@, p);
                assert(orig.take(i + 1).drop_last() =~= orig.take(i as int));
                assert(orig.take(i + 1).last() == orig[i as int]);
            }
            out.insert(idx, p);
            i = i + 1;
        }
        proof {
            assert(orig.take(orig.len() as int) =~= orig);
        }
        self.0 = out;
    }

    /// Removes and returns the window with the latest start time.
    pub fn pop(&mut self) -> (r: Option<Pointer>)
        ensures
            old(self)@.len() > 0 ==> r == Option::Some(old(self)@.last()) && final(self)@ == old(
                self,
            )@.drop_last(),
            old(self)@.len() == 0 ==> r is None && final(self)@ == old(self)@,
    {
        self.0.pop()
    }

    /// Adds a window and restores the sort order.
    pub fn insert(&mut self, ptr: Pointer)
        ensures
            final(self)@ == sort_ptrs(old(self)@.push(ptr)),
    {
        self.0.push(ptr);
        self.sort();
    }

    /// The window with the earliest start time, if any.
    pub fn first(&self) -> (r: Option<&Pointer>)
        ensures
            self@.len() == 0 ==> r is None,
            self@.len() > 0 ==> r == Option::Some(&self@.first()),
    {
        self.0.first()
    }

    /// The window with the latest start time, if any.
    pub fn last(&self) -> (r: Option<&Pointer>)
        ensures
            self@.len() == 0 ==> r is None,
            self@.len() > 0 ==> r == Option::Some(&self@.last()),
    {
        self.0.last()
    }
}

impl Default for Pointers {
    /// An empty table.
    fn default() -> (r: Pointers)
        ensures
            r@ == Seq::<Pointer>::empty(),
    {
        Pointers::new()
    }
}

} // verus!
