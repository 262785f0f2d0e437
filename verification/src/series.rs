use vstd::prelude::*;
use crate::types::DataPoint;

verus! {

/// Timestamps never decrease along the sequence.
pub open spec fn sorted_points(s: Seq<DataPoint>) -> bool {
    forall|i: int, j: int| 0 <= i < j < s.len() ==> s[i].timestamp <= s[j].timestamp
}

/// Whether a point falls in the half-open query window `[lo, hi)`.
pub open spec fn in_range(p: DataPoint, lo: i64, hi: i64) -> bool {
    lo <= p.timestamp < hi
}

/// Stable insertion: the point goes after every point whose timestamp
/// is less than or equal to its own, so arrival order is preserved
/// among equal timestamps.
pub open spec fn insert_point(s: Seq<DataPoint>, p: DataPoint) -> Seq<DataPoint>
    decreases s.len(),
{
    if s.len() == 0 {
        seq![p]
    } else if s[0].timestamp <= p.timestamp {
        seq![s[0]] + insert_point(s.skip(1), p)
    } else {
        seq![p] + s
    }
}

/// The points of `s` inside `[lo, hi)`, in their order in `s`.
pub open spec fn range_spec(s: Seq<DataPoint>, lo: i64, hi: i64) -> Seq<DataPoint>
    decreases s.len(),
{
    if s.len() == 0 {
        Seq::empty()
    } else if in_range(s[0], lo, hi) {
        seq![s[0]] + range_spec(s.skip(1), lo, hi)
    } else {
        range_spec(s.skip(1), lo, hi)
    }
}

/// Stable insertion lands at the position after the last point with a
/// timestamp less than or equal to the new one.
pub proof fn lemma_insert_point_at(s: Seq<DataPoint>, j: int, p: DataPoint)
    requires
        0 <= j <= s.len(),
        forall|k: int| 0 <= k < j ==> s[k].timestamp <= p.timestamp,
        j < s.len() ==> s[j].timestamp > p.timestamp,
    ensures
        insert_point(s, p) == s.insert(j, p),
    decreases j,
{
    if j == 0 {
        if s.len() == 0 {
            assert(s.insert(0, p) =~= seq![p]);
        } else {
            assert(s.insert(0, p) =~= seq![p] + s);
        }
    } else {
        lemma_insert_point_at(s.skip(1), j - 1, p);
        assert(s.insert(j, p) =~= seq![s[0]] + s.skip(1).insert(j - 1, p));
    }
}

/// Stable insertion keeps the sequence sorted.
pub proof fn lemma_insert_point_sorted(s: Seq<DataPoint>, p: DataPoint)
    requires
        sorted_points(s),
    ensures
        sorted_points(insert_point(s, p)),
    decreases s.len(),
{
    if s.len() == 0 {
    } else if s[0].timestamp <= p.timestamp {
        assert(sorted_points(s.skip(1)));
        lemma_insert_point_sorted(s.skip(1), p);
        let t = seq![s[0]] + insert_point(s.skip(1), p);
        lemma_insert_point_members(s.skip(1), p);
        assert forall|i: int, j: int| 0 <= i < j < t.len() implies t[i].timestamp
            <= t[j].timestamp by {
            if i == 0 {
                let q = insert_point(s.skip(1), p);
                assert(t[j] == q[j - 1]);
                if q[j - 1] == p {
                } else {
                    let k = choose|k: int| 0 <= k < s.skip(1).len() && s.skip(1)[k] == q[j - 1];
                    assert(s[0].timestamp <= s[k + 1].timestamp);
                }
            }
        }
    } else {
    }
}

/// Every point of a stable insertion is the new point or one of the
/// old ones.
pub proof fn lemma_insert_point_members(s: Seq<DataPoint>, p: DataPoint)
    ensures
        forall|i: int| 0 <= i < insert_point(s, p).len() ==> insert_point(s, p)[i] == p
            || (exists|k: int| 0 <= k < s.len() && s[k] == insert_point(s, p)[i]),
    decreases s.len(),
{
    if s.len() == 0 {
    } else if s[0].timestamp <= p.timestamp {
        lemma_insert_point_members(s.skip(1), p);
        let t = seq![s[0]] + insert_point(s.skip(1), p);
        assert forall|i: int| 0 <= i < t.len() implies t[i] == p
            || (exists|k: int| 0 <= k < s.len() && s[k] == t[i]) by {
            if i == 0 {
                assert(s[0] == t[0]);
            } else {
                let q = insert_point(s.skip(1), p);
                assert(t[i] == q[i - 1]);
                if q[i - 1] == p {
                } else {
                    let k = choose|k: int| 0 <= k < s.skip(1).len() && s.skip(1)[k] == q[i - 1];
                    assert(s[k + 1] == t[i]);
                }
            }
        }
    } else {
    }
}

/// Stable insertion adds exactly the new point to the multiset.
pub proof fn lemma_insert_point_multiset(s: Seq<DataPoint>, p: DataPoint)
    ensures
        insert_point(s, p).to_multiset() == s.to_multiset().insert(p),
    decreases s.len(),
{
    broadcast use vstd::seq_lib::group_to_multiset_ensures;

    if s.len() == 0 {
        assert(seq![p] =~= Seq::<DataPoint>::empty().push(p));
        assert(insert_point(s, p).to_multiset() =~= s.to_multiset().insert(p));
    } else if s[0].timestamp <= p.timestamp {
        lemma_insert_point_multiset(s.skip(1), p);
        let q = insert_point(s.skip(1), p);
        assert(seq![s[0]] + q =~= q.insert(0, s[0]));
        assert((seq![s[0]] + q).to_multiset() =~= q.to_multiset().insert(s[0]));
        assert(s =~= s.skip(1).insert(0, s[0]));
        assert(s.to_multiset() =~= s.skip(1).to_multiset().insert(s[0]));
        assert(insert_point(s, p).to_multiset() =~= s.to_multiset().insert(p));
    } else {
        assert(seq![p] + s =~= s.insert(0, p));
        assert(insert_point(s, p).to_multiset() =~= s.to_multiset().insert(p));
    }
}

/// A window that covers every point returns the whole sequence.
pub proof fn lemma_range_spec_all(s: Seq<DataPoint>, lo: i64, hi: i64)
    requires
        forall|i: int| 0 <= i < s.len() ==> in_range(s[i], lo, hi),
    ensures
        range_spec(s, lo, hi) == s,
    decreases s.len(),
{
    if s.len() == 0 {
        assert(range_spec(s, lo, hi) =~= s);
    } else {
        lemma_range_spec_all(s.skip(1), lo, hi);
        assert(range_spec(s, lo, hi) =~= s);
    }
}

/// Every point a range query returns lies in the window and in the
/// buffer; the slice of a sorted buffer is sorted.
pub proof fn lemma_range_spec_members(s: Seq<DataPoint>, lo: i64, hi: i64)
    ensures
        forall|i: int| 0 <= i < range_spec(s, lo, hi).len() ==> in_range(
            range_spec(s, lo, hi)[i],
            lo,
            hi,
        ) && (exists|k: int| 0 <= k < s.len() && s[k] == range_spec(s, lo, hi)[i]),
    decreases s.len(),
{
    if s.len() == 0 {
    } else {
        lemma_range_spec_members(s.skip(1), lo, hi);
        let r = range_spec(s, lo, hi);
        let q = range_spec(s.skip(1), lo, hi);
        assert forall|i: int| 0 <= i < r.len() implies in_range(r[i], lo, hi) && (exists|k: int|
            0 <= k < s.len() && s[k] == r[i]) by {
            if in_range(s[0], lo, hi) && i == 0 {
                assert(s[0] == r[0]);
            } else {
                let d: int = if in_range(s[0], lo, hi) {
                    1
                } else {
                    0
                };
                assert(r[i] == q[i - d]);
                let k = choose|k: int| 0 <= k < s.skip(1).len() && s.skip(1)[k] == q[i - d];
                assert(s[k + 1] == r[i]);
            }
        }
    }
}

/// A range slice of a sorted sequence is sorted.
pub proof fn lemma_range_spec_sorted(s: Seq<DataPoint>, lo: i64, hi: i64)
    requires
        sorted_points(s),
    ensures
        sorted_points(range_spec(s, lo, hi)),
    decreases s.len(),
{
    if s.len() == 0 {
    } else {
        assert(sorted_points(s.skip(1)));
        lemma_range_spec_sorted(s.skip(1), lo, hi);
        lemma_range_spec_members(s.skip(1), lo, hi);
        let r = range_spec(s, lo, hi);
        let q = range_spec(s.skip(1), lo, hi);
        if in_range(s[0], lo, hi) {
            assert forall|i: int, j: int| 0 <= i < j < r.len() implies r[i].timestamp
                <= r[j].timestamp by {
                if i == 0 {
                    assert(r[j] == q[j - 1]);
                    let k = choose|k: int| 0 <= k < s.skip(1).len() && s.skip(1)[k] == q[j - 1];
                    assert(s[0].timestamp <= s[k + 1].timestamp);
                }
            }
        }
    }
}

/// A point no earlier than the last of a sorted sequence extends it.
pub proof fn lemma_sorted_push(s: Seq<DataPoint>, p: DataPoint)
    requires
        sorted_points(s),
        s.len() > 0 ==> s.last().timestamp <= p.timestamp,
    ensures
        sorted_points(s.push(p)),
{
    let t = s.push(p);
    assert forall|i: int, j: int| 0 <= i < j < t.len() implies t[i].timestamp
        <= t[j].timestamp by {
        if j == t.len() - 1 {
            if i < s.len() - 1 {
                assert(s[i].timestamp <= s[s.len() - 1].timestamp);
            }
        }
    }
}

/// A range slice distributes over concatenation.
pub proof fn lemma_range_spec_add(a: Seq<DataPoint>, b: Seq<DataPoint>, lo: i64, hi: i64)
    ensures
        range_spec(a + b, lo, hi) == range_spec(a, lo, hi) + range_spec(b, lo, hi),
    decreases a.len(),
{
    if a.len() == 0 {
        assert(a + b =~= b);
        assert(range_spec(a, lo, hi) + range_spec(b, lo, hi) =~= range_spec(b, lo, hi));
    } else {
        lemma_range_spec_add(a.skip(1), b, lo, hi);
        let t = a + b;
        assert(t[0] == a[0]);
        assert(t.skip(1) =~= a.skip(1) + b);
        if in_range(a[0], lo, hi) {
            assert(seq![a[0]] + (range_spec(a.skip(1), lo, hi) + range_spec(b, lo, hi)) =~= (
            seq![a[0]] + range_spec(a.skip(1), lo, hi)) + range_spec(b, lo, hi));
        }
    }
}

/// The ordered buffer of one series inside one partition.
pub struct SeriesBuffer {
    pub points: Vec<DataPoint>,
}

impl View for SeriesBuffer {
    type V = Seq<DataPoint>;

    open spec fn view(&self) -> Seq<DataPoint> {
        self.points@
    }
}

impl SeriesBuffer {
    /// The buffer invariant: points sorted by timestamp.
    pub open spec fn wf(&self) -> bool {
        sorted_points(self@)
    }

    pub fn new() -> (r: SeriesBuffer)
        ensures
            r@ == Seq::<DataPoint>::empty(),
            r.wf(),
    {
        SeriesBuffer { points: Vec::new() }
    }

    pub fn len(&self) -> (r: usize)
        ensures
            r == self@.len(),
    {
        self.points.len()
    }

    /// The position after the last point with timestamp at most `ts`.
    fn upper_bound(&self, ts: i64) -> (j: usize)
        requires
            self.wf(),
        ensures
            j <= self@.len(),
            forall|k: int| 0 <= k < j ==> self@[k].timestamp <= ts,
            j < self@.len() ==> self@[j as int].timestamp > ts,
    {
        let mut j: usize = self.points.len();
        while j > 0
            invariant
                self.wf(),
                j <= self@.len(),
                forall|k: int| j <= k < self@.len() ==> self@[k].timestamp > ts,
            decreases j,
        {
            if self.points[j - 1].timestamp <= ts {
                assert forall|k: int| 0 <= k < j implies self@[k].timestamp <= ts by {
                    if k < j - 1 {
                        assert(self@[k].timestamp <= self@[j - 1].timestamp);
                    }
                }
                return j;
            }
            j = j - 1;
        }
        j
    }

    /// Append one point: push when it is in order, otherwise place it
    /// after every point with a timestamp at most its own.
    pub fn append(&mut self, p: DataPoint)
        requires
            old(self).wf(),
        ensures
            final(self)@ == insert_point(old(self)@, p),
            final(self).wf(),
    {
        let j = self.upper_bound(p.timestamp);
        proof {
            lemma_insert_point_at(self@, j as int, p);
            lemma_insert_point_sorted(self@, p);
        }
        self.points.insert(j, p);
    }

    /// The points with `lo <= timestamp < hi`, in buffer order.
    pub fn range(&self, lo: i64, hi: i64) -> (r: Vec<DataPoint>)
        ensures
            r@ == range_spec(self@, lo, hi),
    {
        let mut r: Vec<DataPoint> = Vec::new();
        let mut i: usize = 0;
        proof {
            assert(self@.skip(0) =~= self@);
        }
        while i < self.points.len()
            invariant
                i <= self@.len(),
                range_spec(self@, lo, hi) == r@ + range_spec(self@.skip(i as int), lo, hi),
            decreases self@.len() - i,
        {
            proof {
                let t = self@.skip(i as int);
                assert(t[0] == self@[i as int]);
                assert(t.skip(1) =~= self@.skip(i as int + 1));
            }
            let p = self.points[i];
            if lo <= p.timestamp && p.timestamp < hi {
                r.push(p);
                proof {
                    assert(r@ + range_spec(self@.skip(i as int + 1), lo, hi) =~= r@.drop_last()
                        + (seq![p] + range_spec(self@.skip(i as int + 1), lo, hi)));
                }
            }
            i = i + 1;
        }
        proof {
            assert(self@.skip(self@.len() as int) =~= Seq::<DataPoint>::empty());
            assert(r@ + Seq::<DataPoint>::empty() =~= r@);
        }
        r
    }
}

} // verus!
