use vstd::prelude::*;
use crate::series::{
    SeriesBuffer, insert_point, lemma_insert_point_members, range_spec, sorted_points,
};
use crate::types::DataPoint;

verus! {

/// The series of one identifier in an association list, or the empty
/// series when the identifier is absent.
pub open spec fn lookup(s: Seq<(u64, SeriesBuffer)>, id: u64) -> Seq<DataPoint>
    decreases s.len(),
{
    if s.len() == 0 {
        Seq::empty()
    } else if s[0].0 == id {
        s[0].1@
    } else {
        lookup(s.skip(1), id)
    }
}

/// Each identifier owns at most one entry.
pub open spec fn keys_unique(s: Seq<(u64, SeriesBuffer)>) -> bool {
    forall|i: int, j: int| 0 <= i < j < s.len() ==> s[i].0 != s[j].0
}

proof fn lemma_lookup_first(s: Seq<(u64, SeriesBuffer)>, id: u64, i: int)
    requires
        0 <= i < s.len(),
        s[i].0 == id,
        forall|k: int| 0 <= k < i ==> s[k].0 != id,
    ensures
        lookup(s, id) == s[i].1@,
    decreases i,
{
    if i > 0 {
        lemma_lookup_first(s.skip(1), id, i - 1);
    }
}

proof fn lemma_lookup_absent(s: Seq<(u64, SeriesBuffer)>, id: u64)
    requires
        forall|k: int| 0 <= k < s.len() ==> s[k].0 != id,
    ensures
        lookup(s, id) == Seq::<DataPoint>::empty(),
    decreases s.len(),
{
    if s.len() > 0 {
        lemma_lookup_absent(s.skip(1), id);
    }
}

proof fn lemma_lookup_update(s: Seq<(u64, SeriesBuffer)>, i: int, b: SeriesBuffer)
    requires
        0 <= i < s.len(),
        keys_unique(s),
    ensures
        lookup(s.update(i, (s[i].0, b)), s[i].0) == b@,
        forall|id2: u64| id2 != s[i].0 ==> lookup(s.update(i, (s[i].0, b)), id2) == lookup(s, id2),
    decreases i,
{
    let t = s.update(i, (s[i].0, b));
    if i == 0 {
        assert(t.skip(1) =~= s.skip(1));
        assert forall|id2: u64| id2 != s[i].0 implies lookup(t, id2) == lookup(s, id2) by {
            assert(lookup(t, id2) == lookup(t.skip(1), id2));
            assert(lookup(s, id2) == lookup(s.skip(1), id2));
        }
    } else {
        assert(keys_unique(s.skip(1)));
        lemma_lookup_update(s.skip(1), i - 1, b);
        assert(t.skip(1) =~= s.skip(1).update(i - 1, (s.skip(1)[i - 1].0, b)));
        assert(t[0] == s[0]);
        assert(s[0].0 != s[i].0);
        assert(lookup(t, s[i].0) == lookup(t.skip(1), s[i].0));
        assert(lookup(t, s[i].0) == b@);
        assert forall|id2: u64| id2 != s[i].0 implies lookup(t, id2) == lookup(s, id2) by {
            if id2 == s[0].0 {
                assert(lookup(t, id2) == t[0].1@);
                assert(lookup(s, id2) == s[0].1@);
            } else {
                assert(lookup(t, id2) == lookup(t.skip(1), id2));
                assert(lookup(s, id2) == lookup(s.skip(1), id2));
            }
        }
    }
}

proof fn lemma_lookup_push(s: Seq<(u64, SeriesBuffer)>, id: u64, b: SeriesBuffer)
    requires
        forall|k: int| 0 <= k < s.len() ==> s[k].0 != id,
    ensures
        lookup(s.push((id, b)), id) == b@,
        forall|id2: u64| id2 != id ==> lookup(s.push((id, b)), id2) == lookup(s, id2),
    decreases s.len(),
{
    let t = s.push((id, b));
    if s.len() == 0 {
        assert(t[0] == (id, b));
        assert(lookup(t, id) == t[0].1@);
        assert forall|id2: u64| id2 != id implies lookup(t, id2) == lookup(s, id2) by {
            assert(t.skip(1) =~= Seq::<(u64, SeriesBuffer)>::empty());
            assert(lookup(t, id2) == lookup(t.skip(1), id2));
        }
    } else {
        lemma_lookup_push(s.skip(1), id, b);
        assert(t[0] == s[0]);
        assert(t.skip(1) =~= s.skip(1).push((id, b)));
        assert(s[0].0 != id);
        assert(lookup(t, id) == lookup(t.skip(1), id));
        assert forall|id2: u64| id2 != id implies lookup(t, id2) == lookup(s, id2) by {
            if id2 == s[0].0 {
                assert(lookup(t, id2) == t[0].1@);
                assert(lookup(s, id2) == s[0].1@);
            } else {
                assert(lookup(t, id2) == lookup(t.skip(1), id2));
                assert(lookup(s, id2) == lookup(s.skip(1), id2));
            }
        }
    }
}

/// In a map of well-formed buffers, every looked-up series is sorted.
pub proof fn lemma_lookup_sorted(s: Seq<(u64, SeriesBuffer)>, id: u64)
    requires
        forall|i: int| 0 <= i < s.len() ==> (#[trigger] s[i].1).wf(),
    ensures
        sorted_points(lookup(s, id)),
    decreases s.len(),
{
    if s.len() == 0 {
    } else if s[0].0 == id {
        assert(s[0].1.wf());
    } else {
        lemma_lookup_sorted(s.skip(1), id);
    }
}

/// The per-partition mapping from series identifier to ordered buffer.
pub struct SeriesMap {
    pub entries: Vec<(u64, SeriesBuffer)>,
}

impl SeriesMap {
    /// Unique identifiers, every buffer sorted.
    pub open spec fn wf(&self) -> bool {
        &&& keys_unique(self.entries@)
        &&& forall|i: int| 0 <= i < self.entries@.len() ==> (#[trigger] self.entries@[i].1).wf()
    }

    /// The series stored under one identifier.
    pub open spec fn series(&self, id: u64) -> Seq<DataPoint> {
        lookup(self.entries@, id)
    }

    pub fn new() -> (r: SeriesMap)
        ensures
            r.wf(),
            forall|id: u64| r.series(id) == Seq::<DataPoint>::empty(),
            r.entries@.len() == 0,
    {
        SeriesMap { entries: Vec::new() }
    }

    fn find(&self, id: u64) -> (r: Option<usize>)
        ensures
            match r {
                Some(i) => i < self.entries@.len() && self.entries@[i as int].0 == id
                    && self.series(id) == self.entries@[i as int].1@,
                None => self.series(id) == Seq::<DataPoint>::empty() && forall|k: int|
                    0 <= k < self.entries@.len() ==> self.entries@[k].0 != id,
            },
    {
        let mut i: usize = 0;
        while i < self.entries.len()
            invariant
                i <= self.entries@.len(),
                forall|k: int| 0 <= k < i ==> self.entries@[k].0 != id,
            decreases self.entries@.len() - i,
        {
            if self.entries[i].0 == id {
                proof {
                    lemma_lookup_first(self.entries@, id, i as int);
                }
                return Some(i);
            }
            i = i + 1;
        }
        proof {
            lemma_lookup_absent(self.entries@, id);
        }
        None
    }

    /// Append one point to the series of `id`, creating the series if
    /// it is new.  Only that series changes, by stable insertion.
    pub fn append(&mut self, id: u64, p: DataPoint)
        requires
            old(self).wf(),
        ensures
            final(self).wf(),
            final(self).series(id) == insert_point(old(self).series(id), p),
            forall|id2: u64| id2 != id ==> final(self).series(id2) == old(self).series(id2),
    {
        let ghost s = self.entries@;
        let found = self.find(id);
        match found {
            Some(i) => {
                let (eid, mut buf) = self.entries.remove(i);
                buf.append(p);
                self.entries.insert(i, (eid, buf));
                proof {
                    assert(self.entries@ =~= s.update(i as int, (id, buf)));
                    lemma_lookup_update(s, i as int, buf);
                    assert(keys_unique(self.entries@));
                }
            },
            None => {
                let mut buf = SeriesBuffer::new();
                buf.append(p);
                proof {
                    lemma_lookup_push(s, id, buf);
                }
                self.entries.push((id, buf));
            },
        }
    }

    /// The points of the series of `id` inside `[lo, hi)`.
    pub fn select(&self, id: u64, lo: i64, hi: i64) -> (r: Vec<DataPoint>)
        ensures
            r@ == range_spec(self.series(id), lo, hi),
    {
        let found = self.find(id);
        match found {
            Some(i) => {
                let e = &self.entries[i];
                e.1.range(lo, hi)
            },
            None => Vec::new(),
        }
    }
}

/// One time shard.  Its window is `[index * duration, (index + 1) *
/// duration)`; the window arithmetic is kept on the partition index so
/// that no window bound has to fit in an `i64`.
pub struct PartitionCore {
    pub index: i64,
    pub duration: i64,
    pub min_timestamp: i64,
    pub max_timestamp: i64,
    pub num_points: usize,
    pub series: SeriesMap,
}

/// Whether a timestamp falls into the window of partition `index`.
pub open spec fn in_window(ts: i64, index: i64, duration: i64) -> bool {
    &&& index * duration <= ts as int
    &&& (ts as int) < (index + 1) * duration
}

impl PartitionCore {
    /// The partition invariant: well-formed series, every point inside
    /// the window and inside the observed `[min, max]` bounds.
    pub open spec fn wf(&self) -> bool {
        &&& self.duration > 0
        &&& self.series.wf()
        &&& forall|id: u64, k: int| 0 <= k < self.series.series(id).len() ==> in_window(
            (#[trigger] self.series.series(id)[k]).timestamp,
            self.index,
            self.duration,
        )
        &&& forall|id: u64, k: int| 0 <= k < self.series.series(id).len()
            ==> self.min_timestamp <= (#[trigger] self.series.series(id)[k]).timestamp
                <= self.max_timestamp
    }

    /// A fresh partition for one window, holding its first point.
    pub fn new(index: i64, duration: i64, id: u64, p: DataPoint) -> (r: PartitionCore)
        requires
            duration > 0,
            in_window(p.timestamp, index, duration),
        ensures
            r.wf(),
            r.index == index,
            r.duration == duration,
            r.series.series(id) == insert_point(Seq::<DataPoint>::empty(), p),
            forall|id2: u64| id2 != id ==> r.series.series(id2) == Seq::<DataPoint>::empty(),
            r.min_timestamp == p.timestamp,
            r.max_timestamp == p.timestamp,
            r.num_points == 1,
    {
        let mut series = SeriesMap::new();
        series.append(id, p);
        proof {
            lemma_insert_point_members(Seq::<DataPoint>::empty(), p);
        }
        PartitionCore {
            index,
            duration,
            min_timestamp: p.timestamp,
            max_timestamp: p.timestamp,
            num_points: 1,
            series,
        }
    }

    /// Append one point of one series; the observed bounds widen to
    /// cover it.
    pub fn insert(&mut self, id: u64, p: DataPoint)
        requires
            old(self).wf(),
            in_window(p.timestamp, old(self).index, old(self).duration),
        ensures
            final(self).wf(),
            final(self).index == old(self).index,
            final(self).duration == old(self).duration,
            final(self).series.series(id) == insert_point(old(self).series.series(id), p),
            forall|id2: u64| id2 != id ==> final(self).series.series(id2) == old(
                self,
            ).series.series(id2),
            final(self).num_points as int == (if old(self).num_points < usize::MAX {
                old(self).num_points + 1
            } else {
                old(self).num_points as int
            }),
            final(self).min_timestamp == (if p.timestamp < old(self).min_timestamp {
                p.timestamp
            } else {
                old(self).min_timestamp
            }),
            final(self).max_timestamp == (if p.timestamp > old(self).max_timestamp {
                p.timestamp
            } else {
                old(self).max_timestamp
            }),
    {
        proof {
            lemma_insert_point_members(self.series.series(id), p);
        }
        self.series.append(id, p);
        if p.timestamp < self.min_timestamp {
            self.min_timestamp = p.timestamp;
        }
        if p.timestamp > self.max_timestamp {
            self.max_timestamp = p.timestamp;
        }
        if self.num_points < usize::MAX {
            self.num_points = self.num_points + 1;
        }
    }

    /// How many points the partition holds.
    pub fn size(&self) -> (r: usize)
        ensures
            r == self.num_points,
    {
        self.num_points
    }
}

/// A time shard of the store: writable in memory, or sealed on disk.
/// Both kinds answer reads from the same kind of series mapping; a
/// disk partition is reconstructed from its encoded blocks on open and
/// never written again.
pub enum Partition {
    Memory(PartitionCore),
    Disk(PartitionCore),
}

impl Partition {
    pub open spec fn inner(&self) -> PartitionCore {
        match self {
            Partition::Memory(c) => *c,
            Partition::Disk(c) => *c,
        }
    }

    pub open spec fn wf(&self) -> bool {
        self.inner().wf()
    }

    pub open spec fn is_memory(&self) -> bool {
        matches!(self, Partition::Memory(_))
    }

    /// The points of one series inside `[lo, hi)`, from either kind.
    pub fn select(&self, id: u64, lo: i64, hi: i64) -> (r: Vec<DataPoint>)
        ensures
            r@ == range_spec(self.inner().series.series(id), lo, hi),
    {
        match self {
            Partition::Memory(c) => c.series.select(id, lo, hi),
            Partition::Disk(c) => c.series.select(id, lo, hi),
        }
    }
}

} // verus!
