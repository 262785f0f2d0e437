use vstd::prelude::*;
use vstd::multiset::Multiset;
use vstd::arithmetic::div_mod::{lemma_div_non_zero, lemma_fundamental_div_mod, lemma_mod_bound};
use vstd::arithmetic::mul::{lemma_mul_inequality, lemma_mul_is_distributive_sub_other_way};
use vstd::seq_lib::group_to_multiset_ensures;
use vstd::seq_lib::lemma_multiset_commutative;
use vstd::multiset::group_multiset_axioms;
use crate::errors::TsinkError;
use crate::labels::{canonicalize_labels, labels_view, series_id, series_id_of};
use crate::partition::{Partition, PartitionCore, in_window};
use crate::series::{
    insert_point, lemma_insert_point_multiset, lemma_range_spec_add, lemma_range_spec_sorted,
    lemma_sorted_push, range_spec, sorted_points,
};
use crate::time::{TimestampPrecision, duration_to_units, duration_units, now_in_precision};
use crate::types::{DataPoint, Label, Row, RowModel};

verus! {

/// The series identifier a row writes to.
pub open spec fn row_id(r: RowModel) -> u64 {
    series_id(r.metric, r.labels)
}

/// The views of a batch of rows.
pub open spec fn row_models(rows: Seq<Row>) -> Seq<RowModel> {
    rows.map_values(|x: Row| x@)
}

/// The index of the partition window that covers a timestamp.
pub open spec fn window_index_spec(ts: i64, d: i64) -> int {
    (ts as int) / (d as int)
}

/// All points stored under one identifier, concatenated newest
/// partition first.
pub open spec fn stored_seq(parts: Seq<Partition>, id: u64) -> Seq<DataPoint>
    decreases parts.len(),
{
    if parts.len() == 0 {
        Seq::empty()
    } else {
        parts[0].inner().series.series(id) + stored_seq(parts.skip(1), id)
    }
}

/// The multiset of all points stored under one identifier.
pub open spec fn stored_ms(parts: Seq<Partition>, id: u64) -> Multiset<DataPoint> {
    stored_seq(parts, id).to_multiset()
}

/// Whether every partition is still writable (none flushed to disk).
pub open spec fn all_memory(parts: Seq<Partition>) -> bool {
    forall|j: int| 0 <= j < parts.len() ==> (#[trigger] parts[j]).is_memory()
}

/// How a batch of effective rows relates to the rows as given: equal
/// but for timestamps that were missing (zero) and were filled with
/// the wall clock.
pub open spec fn rows_filled(filled: Seq<RowModel>, given: Seq<RowModel>) -> bool {
    &&& filled.len() == given.len()
    &&& forall|k: int| 0 <= k < filled.len() ==> (#[trigger] filled[k]).metric == given[k].metric
        && filled[k].labels == given[k].labels && filled[k].point.value == given[k].point.value && (
    given[k].point.timestamp != 0 ==> filled[k].point.timestamp == given[k].point.timestamp) && (
    given[k].point.timestamp == 0 ==> filled[k].point.timestamp >= 0)
}

/// Whether the new partition list stores, under every identifier,
/// exactly the old contents with the points of `filled` folded in.
pub open spec fn stored_matches(
    parts_new: Seq<Partition>,
    parts_old: Seq<Partition>,
    filled: Seq<RowModel>,
) -> bool {
    forall|id: u64| #[trigger] stored_ms(parts_new, id) == apply_rows_ms(
        stored_ms(parts_old, id),
        filled,
        id,
    )
}

/// Whether an already-flushed (disk) partition covers a timestamp.
pub open spec fn disk_covers(parts: Seq<Partition>, ts: i64, d: i64) -> bool {
    exists|j: int|
        0 <= j < parts.len() && !parts[j].is_memory() && parts[j].inner().index
            == window_index_spec(ts, d)
}

/// Whether a timestamp predates the oldest writable partition: the
/// configured count of newest partitions accept writes, and windows
/// older than the last of them are closed.
pub open spec fn too_old(parts: Seq<Partition>, wp: int, ts: i64, d: i64) -> bool {
    parts.len() >= wp && wp >= 1 && window_index_spec(ts, d) < parts[wp - 1].inner().index
}

/// The batch contract: fold the points of the rows, in order, into the
/// multiset stored under `id`.
pub open spec fn apply_rows_ms(
    base: Multiset<DataPoint>,
    rows: Seq<RowModel>,
    id: u64,
) -> Multiset<DataPoint>
    decreases rows.len(),
{
    if rows.len() == 0 {
        base
    } else {
        apply_rows_ms(
            if row_id(rows[0]) == id {
                base.insert(rows[0].point)
            } else {
                base
            },
            rows.skip(1),
            id,
        )
    }
}

/// Folding one more row folds onto the result of the prefix.
proof fn lemma_apply_rows_ms_push(base: Multiset<DataPoint>, rows: Seq<RowModel>, x: RowModel, id: u64)
    ensures
        apply_rows_ms(base, rows.push(x), id) == (if row_id(x) == id {
            apply_rows_ms(base, rows, id).insert(x.point)
        } else {
            apply_rows_ms(base, rows, id)
        }),
    decreases rows.len(),
{
    let t = rows.push(x);
    if rows.len() == 0 {
        assert(t.skip(1) =~= Seq::<RowModel>::empty());
        assert(t[0] == x);
        let base2 = if row_id(x) == id {
            base.insert(x.point)
        } else {
            base
        };
        assert(apply_rows_ms(base, t, id) == apply_rows_ms(base2, t.skip(1), id));
        assert(apply_rows_ms(base2, t.skip(1), id) == base2);
        assert(apply_rows_ms(base, rows, id) == base);
    } else {
        assert(t[0] == rows[0]);
        assert(t.skip(1) =~= rows.skip(1).push(x));
        let base2 = if row_id(rows[0]) == id {
            base.insert(rows[0].point)
        } else {
            base
        };
        lemma_apply_rows_ms_push(base2, rows.skip(1), x, id);
        assert(apply_rows_ms(base, t, id) == apply_rows_ms(base2, rows.skip(1).push(x), id));
        assert(apply_rows_ms(base, rows, id) == apply_rows_ms(base2, rows.skip(1), id));
    }
}

/// Replacing the partition at `i` with one whose series under `id0`
/// gained `pt` by stable insertion, all else equal, adds exactly `pt`
/// to the stored multiset of `id0` and changes no other identifier.
proof fn lemma_stored_update(parts: Seq<Partition>, i: int, p2: Partition, id0: u64, pt: DataPoint)
    requires
        0 <= i < parts.len(),
        p2.inner().series.series(id0) == insert_point(parts[i].inner().series.series(id0), pt),
        forall|id2: u64| id2 != id0 ==> p2.inner().series.series(id2) == parts[i].inner().series.series(id2),
    ensures
        stored_ms(parts.update(i, p2), id0) == stored_ms(parts, id0).insert(pt),
        forall|id2: u64| id2 != id0 ==> stored_seq(parts.update(i, p2), id2) == stored_seq(
            parts,
            id2,
        ),
    decreases i,
{
    broadcast use group_to_multiset_ensures;

    let t = parts.update(i, p2);
    if i == 0 {
        assert(t.skip(1) =~= parts.skip(1));
        lemma_insert_point_multiset(parts[0].inner().series.series(id0), pt);
        lemma_multiset_commutative(t[0].inner().series.series(id0), stored_seq(t.skip(1), id0));
        lemma_multiset_commutative(
            parts[0].inner().series.series(id0),
            stored_seq(parts.skip(1), id0),
        );
        assert(stored_ms(t, id0) =~= stored_ms(parts, id0).insert(pt));
        assert forall|id2: u64| id2 != id0 implies stored_seq(t, id2) == stored_seq(
            parts,
            id2,
        ) by {
            assert(stored_seq(t, id2) == t[0].inner().series.series(id2) + stored_seq(
                t.skip(1),
                id2,
            ));
            assert(stored_seq(parts, id2) == parts[0].inner().series.series(id2) + stored_seq(
                parts.skip(1),
                id2,
            ));
        }
    } else {
        lemma_stored_update(parts.skip(1), i - 1, p2, id0, pt);
        assert(t.skip(1) =~= parts.skip(1).update(i - 1, p2));
        assert(t[0] == parts[0]);
        lemma_multiset_commutative(t[0].inner().series.series(id0), stored_seq(t.skip(1), id0));
        lemma_multiset_commutative(
            parts[0].inner().series.series(id0),
            stored_seq(parts.skip(1), id0),
        );
        assert(stored_ms(t, id0) =~= stored_ms(parts, id0).insert(pt));
        assert forall|id2: u64| id2 != id0 implies stored_seq(t, id2) == stored_seq(
            parts,
            id2,
        ) by {
            assert(stored_seq(t, id2) == t[0].inner().series.series(id2) + stored_seq(
                t.skip(1),
                id2,
            ));
            assert(stored_seq(parts, id2) == parts[0].inner().series.series(id2) + stored_seq(
                parts.skip(1),
                id2,
            ));
        }
    }
}

/// Inserting a fresh partition holding only `pt` under `id0` adds
/// exactly `pt` to the stored multiset of `id0` and changes no other
/// identifier.
proof fn lemma_stored_insert_new(parts: Seq<Partition>, j: int, p2: Partition, id0: u64, pt: DataPoint)
    requires
        0 <= j <= parts.len(),
        p2.inner().series.series(id0) == insert_point(Seq::<DataPoint>::empty(), pt),
        forall|id2: u64| id2 != id0 ==> p2.inner().series.series(id2) == Seq::<DataPoint>::empty(),
    ensures
        stored_ms(parts.insert(j, p2), id0) == stored_ms(parts, id0).insert(pt),
        forall|id2: u64| id2 != id0 ==> stored_seq(parts.insert(j, p2), id2) == stored_seq(
            parts,
            id2,
        ),
    decreases j,
{
    broadcast use group_to_multiset_ensures;

    let t = parts.insert(j, p2);
    if j == 0 {
        assert(t[0] == p2);
        assert(t.skip(1) =~= parts);
        assert(p2.inner().series.series(id0) =~= seq![pt]);
        lemma_multiset_commutative(p2.inner().series.series(id0), stored_seq(parts, id0));
        assert(seq![pt].to_multiset() =~= Multiset::<DataPoint>::empty().insert(pt)) by {
            assert(seq![pt] =~= Seq::<DataPoint>::empty().push(pt));
        }
        assert(stored_ms(t, id0) =~= stored_ms(parts, id0).insert(pt));
        assert forall|id2: u64| id2 != id0 implies stored_seq(t, id2) == stored_seq(
            parts,
            id2,
        ) by {
            assert(stored_seq(t, id2) == p2.inner().series.series(id2) + stored_seq(parts, id2));
            assert(p2.inner().series.series(id2) + stored_seq(parts, id2) =~= stored_seq(
                parts,
                id2,
            ));
        }
    } else {
        lemma_stored_insert_new(parts.skip(1), j - 1, p2, id0, pt);
        assert(t[0] == parts[0]);
        assert(t.skip(1) =~= parts.skip(1).insert(j - 1, p2));
        lemma_multiset_commutative(t[0].inner().series.series(id0), stored_seq(t.skip(1), id0));
        lemma_multiset_commutative(
            parts[0].inner().series.series(id0),
            stored_seq(parts.skip(1), id0),
        );
        assert(stored_ms(t, id0) =~= stored_ms(parts, id0).insert(pt));
        assert forall|id2: u64| id2 != id0 implies stored_seq(t, id2) == stored_seq(
            parts,
            id2,
        ) by {
            assert(stored_seq(t, id2) == t[0].inner().series.series(id2) + stored_seq(
                t.skip(1),
                id2,
            ));
            assert(stored_seq(parts, id2) == parts[0].inner().series.series(id2) + stored_seq(
                parts.skip(1),
                id2,
            ));
        }
    }
}

/// Merge two timestamp-sorted vectors into one.
#[verifier::loop_isolation(false)]
fn merge_sorted(a: &Vec<DataPoint>, b: &Vec<DataPoint>) -> (r: Vec<DataPoint>)
    requires
        sorted_points(a@),
        sorted_points(b@),
    ensures
        sorted_points(r@),
        r@.to_multiset() == a@.to_multiset().add(b@.to_multiset()),
{
    broadcast use group_to_multiset_ensures;
    broadcast use group_multiset_axioms;

    let mut r: Vec<DataPoint> = Vec::new();
    let mut i: usize = 0;
    let mut j: usize = 0;
    proof {
        assert(a@.take(0) =~= Seq::<DataPoint>::empty());
        assert(b@.take(0) =~= Seq::<DataPoint>::empty());
    }
    while i < a.len() || j < b.len()
        invariant
            sorted_points(a@),
            sorted_points(b@),
            i <= a@.len(),
            j <= b@.len(),
            sorted_points(r@),
            r@.to_multiset() == a@.take(i as int).to_multiset().add(b@.take(j as int).to_multiset()),
            r@.len() > 0 && i < a@.len() ==> r@.last().timestamp <= a@[i as int].timestamp,
            r@.len() > 0 && j < b@.len() ==> r@.last().timestamp <= b@[j as int].timestamp,
        decreases a@.len() - i + b@.len() - j,
    {
        let take_a: bool = if i < a.len() {
            j == b.len() || a[i].timestamp <= b[j].timestamp
        } else {
            false
        };
        if take_a {
            let p = a[i];
            proof {
                lemma_sorted_push(r@, p);
                assert(a@.take(i as int + 1) =~= a@.take(i as int).push(p));
            }
            r.push(p);
            i = i + 1;
            proof {
                assert(r@.to_multiset() =~= a@.take(i as int).to_multiset().add(
                    b@.take(j as int).to_multiset(),
                ));
            }
        } else {
            let p = b[j];
            proof {
                lemma_sorted_push(r@, p);
                assert(b@.take(j as int + 1) =~= b@.take(j as int).push(p));
            }
            r.push(p);
            j = j + 1;
            proof {
                assert(r@.to_multiset() =~= a@.take(i as int).to_multiset().add(
                    b@.take(j as int).to_multiset(),
                ));
            }
        }
    }
    proof {
        assert(a@.take(a@.len() as int) =~= a@);
        assert(b@.take(b@.len() as int) =~= b@);
    }
    r
}

/// The partition index covering `ts`, with its window facts.
fn window_index(ts: i64, d: i64) -> (k: i64)
    requires
        d > 0,
    ensures
        k as int == window_index_spec(ts, d),
        in_window(ts, k, d),
{
    proof {
        lemma_div_euclid_fits(ts as int, d as int);
        lemma_fundamental_div_mod(ts as int, d as int);
        lemma_mod_bound(ts as int, d as int);
    }
    let k = match ts.checked_div_euclid(d) {
        Some(k) => k,
        None => {
            proof {
                assert(i64::MIN <= (ts as int) / (d as int) <= i64::MAX);
                assert(ts.checked_div_euclid(d) == Some(((ts as int) / (d as int)) as i64));
                assert(false);
            }
            0
        },
    };
    proof {
        let ki = k as int;
        let di = d as int;
        let ti = ts as int;
        assert(ti == di * ki + ti % di);
        assert(ki * di == di * ki) by (nonlinear_arith);
        assert(ki * di <= ti);
        assert((ki + 1) * di == ki * di + di) by {
            lemma_mul_is_distributive_sub_other_way(di, ki + 1, 1);
        }
        assert(ti < (ki + 1) * di);
    }
    k
}

/// Euclidean division of an `i64` by a positive `i64` stays in range.
proof fn lemma_div_euclid_fits(ts: int, d: int)
    requires
        d >= 1,
        i64::MIN <= ts <= i64::MAX,
    ensures
        i64::MIN <= ts / d <= i64::MAX,
{
    lemma_fundamental_div_mod(ts, d);
    lemma_mod_bound(ts, d);
    let q = ts / d;
    let r = ts % d;
    if ts >= 0 {
        assert(0 <= q <= ts) by (nonlinear_arith)
            requires
                d >= 1,
                ts >= 0,
                ts == d * q + r,
                0 <= r < d,
        ;
    } else {
        assert(ts <= q <= 0) by (nonlinear_arith)
            requires
                d >= 1,
                ts < 0,
                ts == d * q + r,
                0 <= r < d,
        ;
    }
}

/// The storage engine: configuration and the partition list, newest
/// partition first.
pub struct Storage {
    pub precision: TimestampPrecision,
    pub partition_duration: i64,
    pub writable_partitions: usize,
    pub partitions: Vec<Partition>,
}

impl Storage {
    /// The engine invariant: a positive partition duration; every
    /// partition well formed, sharing that duration; windows strictly
    /// ordered newest first (so in particular disjoint).
    pub open spec fn wf(&self) -> bool {
        &&& self.partition_duration > 0
        &&& self.writable_partitions >= 1
        &&& forall|i: int| 0 <= i < self.partitions@.len() ==> (#[trigger] self.partitions@[i]).wf()
        &&& forall|i: int| 0 <= i < self.partitions@.len()
            ==> (#[trigger] self.partitions@[i]).inner().duration == self.partition_duration
        &&& forall|i: int, j: int| 0 <= i < j < self.partitions@.len()
            ==> self.partitions@[i].inner().index > self.partitions@[j].inner().index
    }

    /// The multiset of points stored under one identifier.
    pub open spec fn stored(&self, id: u64) -> Multiset<DataPoint> {
        stored_ms(self.partitions@, id)
    }

    /// Route one point to its partition.  A window already flushed to
    /// disk, or older than the oldest writable partition, rejects the
    /// write; an acceptable missing window is created in place.
    fn route_point(&mut self, id: u64, p: DataPoint) -> (r: Result<(), TsinkError>)
        requires
            old(self).wf(),
        ensures
            final(self).wf(),
            final(self).precision == old(self).precision,
            final(self).partition_duration == old(self).partition_duration,
            final(self).writable_partitions == old(self).writable_partitions,
            final(self).partitions@.len() <= old(self).partitions@.len() + 1,
            r is Err <==> disk_covers(
                old(self).partitions@,
                p.timestamp,
                old(self).partition_duration,
            ) || too_old(
                old(self).partitions@,
                old(self).writable_partitions as int,
                p.timestamp,
                old(self).partition_duration,
            ),
            match r {
                Ok(()) => forall|id2: u64| #[trigger] stored_ms(final(self).partitions@, id2) == (
                if id2 == id {
                    stored_ms(old(self).partitions@, id2).insert(p)
                } else {
                    stored_ms(old(self).partitions@, id2)
                }),
                Err(e) => e == TsinkError::PastWindow && final(self).partitions@ == old(
                    self,
                ).partitions@,
            },
            all_memory(old(self).partitions@) ==> all_memory(final(self).partitions@),
    {
        let d = self.partition_duration;
        let wp = self.writable_partitions;
        let ghost wpi = wp as int;
        let k = window_index(p.timestamp, d);
        let ghost parts0 = self.partitions@;
        let j = self.find_window(k);
        if j < self.partitions.len() && self.partition_index_at(j) == k {
            if j >= wp {
                // the covering partition is older than the writable range
                proof {
                    assert(parts0[wpi - 1].inner().index > parts0[j as int].inner().index);
                    assert(too_old(parts0, wpi, p.timestamp, d));
                }
                return Err(TsinkError::PastWindow);
            }
            proof {
                // within the writable range, the window is not too old
                if parts0.len() >= wpi {
                    if j < wp - 1 {
                        assert(parts0[j as int].inner().index > parts0[wpi - 1].inner().index);
                    }
                    assert(!too_old(parts0, wpi, p.timestamp, d));
                }
            }
            // the covering partition exists and accepts writes
            let part = self.partitions.remove(j);
            match part {
                Partition::Memory(mut core) => {
                    core.insert(id, p);
                    let p2 = Partition::Memory(core);
                    self.partitions.insert(j, p2);
                    proof {
                        assert(self.partitions@ =~= parts0.update(j as int, p2));
                        if all_memory(parts0) {
                            assert forall|t: int|
                                0 <= t < self.partitions@.len() implies (#[trigger] self.partitions@[t]).is_memory() by {
                                if t != j {
                                    assert(self.partitions@[t] == parts0[t]);
                                }
                            }
                        }
                        lemma_stored_update(parts0, j as int, p2, id, p);
                        assert forall|id2: u64| #[trigger] stored_ms(self.partitions@, id2) == (
                        if id2 == id {
                            stored_ms(parts0, id2).insert(p)
                        } else {
                            stored_ms(parts0, id2)
                        }) by {
                            if id2 != id {
                                assert(stored_seq(parts0.update(j as int, p2), id2) == stored_seq(
                                    parts0,
                                    id2,
                                ));
                            }
                        }
                        assert forall|t: int|
                            0 <= t < self.partitions@.len() implies (#[trigger] self.partitions@[t]).inner().index
                            == parts0[t].inner().index by {}
                        assert(!disk_covers(parts0, p.timestamp, d)) by {
                            assert forall|t: int|
                                0 <= t < parts0.len() && parts0[t].inner().index
                                    == window_index_spec(p.timestamp, d) implies parts0[t].is_memory() by {
                                if t > j {
                                    assert(parts0[j as int].inner().index > parts0[t].inner().index);
                                }
                            }
                        }
                    }
                    Ok(())
                },
                Partition::Disk(core) => {
                    self.partitions.insert(j, Partition::Disk(core));
                    proof {
                        assert(self.partitions@ =~= parts0);
                        assert(!parts0[j as int].is_memory());
                        assert(disk_covers(parts0, p.timestamp, d));
                    }
                    Err(TsinkError::PastWindow)
                },
            }
        } else {
            proof {
                assert forall|t: int|
                    0 <= t < parts0.len() implies (#[trigger] parts0[t]).inner().index != k by {
                    if t == j {
                    } else if t > j {
                        assert(parts0[j as int].inner().index > parts0[t].inner().index);
                    }
                }
                assert(!disk_covers(parts0, p.timestamp, d));
            }
            if self.partitions.len() >= wp {
                let cutoff = self.partition_index_at(wp - 1);
                if k < cutoff {
                    // the window predates the oldest writable partition
                    proof {
                        assert(too_old(parts0, wpi, p.timestamp, d));
                    }
                    return Err(TsinkError::PastWindow);
                }
            }
            proof {
                assert(!too_old(parts0, wpi, p.timestamp, d));
            }
            // no partition covers the window: create it at position j
            let core = PartitionCore::new(k, d, id, p);
            let p2 = Partition::Memory(core);
            self.partitions.insert(j, p2);
            proof {
                assert(self.partitions@ =~= parts0.insert(j as int, p2));
                lemma_stored_insert_new(parts0, j as int, p2, id, p);
                assert forall|id2: u64| #[trigger] stored_ms(self.partitions@, id2) == (
                if id2 == id {
                    stored_ms(parts0, id2).insert(p)
                } else {
                    stored_ms(parts0, id2)
                }) by {
                    if id2 != id {
                        assert(stored_seq(parts0.insert(j as int, p2), id2) == stored_seq(
                            parts0,
                            id2,
                        ));
                    }
                }
                if all_memory(parts0) {
                    assert forall|t: int|
                        0 <= t < self.partitions@.len() implies (#[trigger] self.partitions@[t]).is_memory() by {
                        if t < j {
                            assert(self.partitions@[t] == parts0[t]);
                        } else if t > j {
                            assert(self.partitions@[t] == parts0[t - 1]);
                        }
                    }
                }
                let t2 = self.partitions@;
                assert forall|a: int, b: int| 0 <= a < b < t2.len() implies t2[a].inner().index
                    > t2[b].inner().index by {
                    if a == j {
                        assert(t2[b] == parts0[b - 1]);
                    } else if b == j {
                        assert(t2[a] == parts0[a]);
                    } else if a < j && b > j {
                        assert(t2[a] == parts0[a]);
                        assert(t2[b] == parts0[b - 1]);
                    }
                }
            }
            Ok(())
        }
    }

    /// The index of the partition at one list position.
    fn partition_index_at(&self, j: usize) -> (r: i64)
        requires
            j < self.partitions@.len(),
        ensures
            r == self.partitions@[j as int].inner().index,
    {
        match &self.partitions[j] {
            Partition::Memory(c) => c.index,
            Partition::Disk(c) => c.index,
        }
    }

    /// The batch with every missing (zero) timestamp filled from the
    /// wall clock: what the write-ahead log should make durable before
    /// the batch is applied.
    pub fn fill_rows(&self, rows: &Vec<Row>) -> (r: Vec<Row>)
        ensures
            rows_filled(row_models(r@), row_models(rows@)),
    {
        let mut out: Vec<Row> = Vec::new();
        let mut i: usize = 0;
        while i < rows.len()
            invariant
                i <= rows@.len(),
                out@.len() == i,
                forall|k: int| 0 <= k < i ==> (#[trigger] out@[k])@.metric == rows@[k]@.metric
                    && out@[k]@.labels == rows@[k]@.labels && out@[k]@.point.value
                    == rows@[k]@.point.value && (rows@[k]@.point.timestamp != 0
                    ==> out@[k]@.point.timestamp == rows@[k]@.point.timestamp) && (
                rows@[k]@.point.timestamp == 0 ==> out@[k]@.point.timestamp >= 0),
            decreases rows@.len() - i,
        {
            let row = &rows[i];
            let ts0 = row.point.timestamp;
            let ts = if ts0 == 0 {
                now_in_precision(self.precision)
            } else {
                ts0
            };
            let mut labels: Vec<Label> = Vec::new();
            let mut j: usize = 0;
            while j < row.labels.len()
                invariant
                    j <= row.labels@.len(),
                    labels@.len() == j,
                    forall|k: int| 0 <= k < j ==> (#[trigger] labels@[k])@ == row.labels@[k]@,
                decreases row.labels@.len() - j,
            {
                labels.push(row.labels[j].dup());
                j = j + 1;
            }
            proof {
                assert(labels@.map_values(|l: Label| l@) =~= row.labels@.map_values(
                    |l: Label| l@,
                ));
            }
            out.push(
                Row {
                    metric: row.metric.clone(),
                    labels,
                    point: DataPoint { timestamp: ts, value: row.point.value },
                },
            );
            i = i + 1;
        }
        proof {
            assert(row_models(out@).len() == row_models(rows@).len());
            assert forall|k: int| 0 <= k < out@.len() implies (#[trigger] row_models(out@)[k]).metric
                == row_models(rows@)[k].metric && row_models(out@)[k].labels == row_models(
                rows@,
            )[k].labels && row_models(out@)[k].point.value == row_models(rows@)[k].point.value && (
            row_models(rows@)[k].point.timestamp != 0 ==> row_models(out@)[k].point.timestamp
                == row_models(rows@)[k].point.timestamp) && (row_models(rows@)[k].point.timestamp
                == 0 ==> row_models(out@)[k].point.timestamp >= 0) by {
                assert(row_models(out@)[k] == out@[k]@);
                assert(row_models(rows@)[k] == rows@[k]@);
            }
        }
        out
    }

    /// Ingest a single row: fill a missing (zero) timestamp with the
    /// wall clock, canonicalize the labels, and route the point.  The
    /// ghost result is the effective row that was applied.
    fn insert_one(&mut self, row: &Row) -> (r: (Result<(), TsinkError>, Ghost<RowModel>))
        requires
            old(self).wf(),
        ensures
            final(self).wf(),
            final(self).precision == old(self).precision,
            final(self).partition_duration == old(self).partition_duration,
            final(self).writable_partitions == old(self).writable_partitions,
            final(self).partitions@.len() <= old(self).partitions@.len() + 1,
            r.1@.metric == row@.metric,
            r.1@.labels == row@.labels,
            r.1@.point.value == row@.point.value,
            row@.point.timestamp != 0 ==> r.1@.point.timestamp == row@.point.timestamp,
            row@.point.timestamp == 0 ==> r.1@.point.timestamp >= 0,
            r.0 is Ok ==> forall|id2: u64| #[trigger] stored_ms(final(self).partitions@, id2) == (
            if id2 == row_id(r.1@) {
                stored_ms(old(self).partitions@, id2).insert(r.1@.point)
            } else {
                stored_ms(old(self).partitions@, id2)
            }),
            r.0 is Err ==> r.0 == Err::<(), TsinkError>(TsinkError::PastWindow)
                && final(self).partitions@ == old(self).partitions@
                && (disk_covers(
                old(self).partitions@,
                r.1@.point.timestamp,
                old(self).partition_duration,
            ) || too_old(
                old(self).partitions@,
                old(self).writable_partitions as int,
                r.1@.point.timestamp,
                old(self).partition_duration,
            )),
            all_memory(old(self).partitions@) ==> all_memory(final(self).partitions@),
    {
        let ts0 = row.point.timestamp;
        let ts = if ts0 == 0 {
            now_in_precision(self.precision)
        } else {
            ts0
        };
        let p = DataPoint { timestamp: ts, value: row.point.value };
        let canon = canonicalize_labels(&row.labels);
        let id = series_id_of(row.metric.as_str(), &canon);
        let ghost m = RowModel { metric: row@.metric, labels: row@.labels, point: p };
        proof {
            assert(row@.labels =~= labels_view(row.labels@));
            assert(id == row_id(m));
        }
        let res = self.route_point(id, p);
        match res {
            Ok(()) => (Ok(()), Ghost(m)),
            Err(_) => (Err(TsinkError::PastWindow), Ghost(m)),
        }
    }

    /// Validate, fill missing timestamps with the wall clock, and
    /// route every row to its partition.  A batch with an empty metric
    /// name is rejected whole, before any state changes; a row whose
    /// window is already on disk stops the batch at that row.
    #[verifier::rlimit(100)]
    pub fn insert_rows(&mut self, rows: &Vec<Row>) -> (r: Result<(), TsinkError>)
        requires
            old(self).wf(),
        ensures
            final(self).wf(),
            final(self).precision == old(self).precision,
            final(self).partition_duration == old(self).partition_duration,
            (exists|k: int| 0 <= k < rows@.len() && (#[trigger] rows@[k])@.metric.len() == 0)
                <==> r == Err::<(), TsinkError>(TsinkError::MetricRequired),
            r == Err::<(), TsinkError>(TsinkError::MetricRequired)
                ==> final(self).partitions@ == old(self).partitions@,
            r is Ok ==> exists|filled: Seq<RowModel>|
                #[trigger] rows_filled(filled, row_models(rows@)) && stored_matches(
                    final(self).partitions@,
                    old(self).partitions@,
                    filled,
                ),
            r == Err::<(), TsinkError>(TsinkError::PastWindow) ==> exists|filled: Seq<RowModel>|
                #[trigger] stored_matches(final(self).partitions@, old(self).partitions@, filled),
            all_memory(old(self).partitions@) && old(self).partitions@.len() + rows@.len() <= old(
                self,
            ).writable_partitions && r != Err::<(), TsinkError>(TsinkError::MetricRequired)
                ==> r is Ok,
            all_memory(old(self).partitions@) ==> all_memory(final(self).partitions@),
            final(self).writable_partitions == old(self).writable_partitions,
    {
        let ghost models = row_models(rows@);
        let mut v: usize = 0;
        while v < rows.len()
            invariant
                self.wf(),
                self.partitions@ == old(self).partitions@,
                self.precision == old(self).precision,
                self.partition_duration == old(self).partition_duration,
                self.writable_partitions == old(self).writable_partitions,
                v <= rows@.len(),
                forall|k: int| 0 <= k < v ==> (#[trigger] rows@[k])@.metric.len() > 0,
            decreases rows@.len() - v,
        {
            if rows[v].metric.as_str().unicode_len() == 0 {
                return Err(TsinkError::MetricRequired);
            }
            v = v + 1;
        }
        let ghost parts_old = self.partitions@;
        let ghost mut filled: Seq<RowModel> = Seq::empty();
        let mut i: usize = 0;
        proof {
            assert forall|id: u64| #[trigger] stored_ms(self.partitions@, id) == apply_rows_ms(
                stored_ms(parts_old, id),
                filled,
                id,
            ) by {}
        }
        while i < rows.len()
            invariant
                self.wf(),
                self.precision == old(self).precision,
                self.partition_duration == old(self).partition_duration,
                self.writable_partitions == old(self).writable_partitions,
                self.partitions@.len() <= parts_old.len() + i,
                i <= rows@.len(),
                models == row_models(rows@),
                parts_old == old(self).partitions@,
                forall|k: int| 0 <= k < rows@.len() ==> (#[trigger] rows@[k])@.metric.len() > 0,
                rows_filled(filled, models.take(i as int)),
                stored_matches(self.partitions@, parts_old, filled),
                all_memory(parts_old) ==> all_memory(self.partitions@),
            decreases rows@.len() - i,
        {
            let ghost filled_before = filled;
            let ghost parts_before = self.partitions@;
            let (res, gm) = self.insert_one(&rows[i]);
            let ghost m = gm@;
            match res {
                Ok(()) => {
                    proof {
                        filled = filled.push(m);
                        assert(models.take(i as int + 1) =~= models.take(i as int).push(
                            models[i as int],
                        ));
                        assert(models[i as int] == rows@[i as int]@);
                        assert forall|id2: u64| #[trigger] stored_ms(self.partitions@, id2)
                            == apply_rows_ms(stored_ms(parts_old, id2), filled, id2) by {
                            assert(stored_ms(parts_before, id2) == apply_rows_ms(
                                stored_ms(parts_old, id2),
                                filled_before,
                                id2,
                            ));
                            lemma_apply_rows_ms_push(
                                stored_ms(parts_old, id2),
                                filled_before,
                                m,
                                id2,
                            );
                        }
                    }
                },
                Err(_) => {
                    proof {
                        assert(stored_matches(self.partitions@, parts_old, filled));
                        if all_memory(parts_old) && parts_old.len() + rows@.len()
                            <= self.writable_partitions {
                            assert(all_memory(parts_before));
                            assert(!disk_covers(
                                parts_before,
                                m.point.timestamp,
                                self.partition_duration,
                            ));
                            assert(parts_before.len() < self.writable_partitions);
                            assert(!too_old(
                                parts_before,
                                self.writable_partitions as int,
                                m.point.timestamp,
                                self.partition_duration,
                            ));
                            assert(false);
                        }
                    }
                    return Err(TsinkError::PastWindow);
                },
            }
            i = i + 1;
        }
        proof {
            assert(models.take(models.len() as int) =~= models);
            assert(rows_filled(filled, row_models(rows@)));
            assert(stored_matches(self.partitions@, parts_old, filled));
        }
        Ok(())
    }

    /// Answer a range query: all stored points of the metric with
    /// exactly these labels whose timestamps lie in `[t_start, t_end)`,
    /// in non-decreasing timestamp order.
    pub fn select(&self, metric: &str, labels: &Vec<Label>, t_start: i64, t_end: i64) -> (r:
        Result<Vec<DataPoint>, TsinkError>)
        requires
            self.wf(),
        ensures
            metric@.len() == 0 ==> r == Err::<Vec<DataPoint>, TsinkError>(
                TsinkError::MetricRequired,
            ),
            metric@.len() > 0 && t_start >= t_end ==> r == Err::<Vec<DataPoint>, TsinkError>(
                TsinkError::InvalidTimeRange { start: t_start, end: t_end },
            ),
            metric@.len() > 0 && t_start < t_end ==> (r matches Ok(pts) && sorted_points(pts@)
                && pts@.to_multiset() == range_spec(
                stored_seq(self.partitions@, series_id(metric@, labels_view(labels@))),
                t_start,
                t_end,
            ).to_multiset()),
    {
        broadcast use group_to_multiset_ensures;

        if metric.unicode_len() == 0 {
            return Err(TsinkError::MetricRequired);
        }
        if t_start >= t_end {
            return Err(TsinkError::InvalidTimeRange { start: t_start, end: t_end });
        }
        let canon = canonicalize_labels(labels);
        let id = series_id_of(metric, &canon);
        proof {
            assert(labels_view(labels@) =~= labels@.map_values(|l: Label| l@));
            assert(id == series_id(metric@, labels_view(labels@)));
        }
        let mut acc: Vec<DataPoint> = Vec::new();
        let mut i: usize = self.partitions.len();
        proof {
            assert(stored_seq(self.partitions@.skip(i as int), id) =~= Seq::<DataPoint>::empty());
            assert(acc@.to_multiset() =~= range_spec(
                stored_seq(self.partitions@.skip(i as int), id),
                t_start,
                t_end,
            ).to_multiset());
        }
        while i > 0
            invariant
                self.wf(),
                i <= self.partitions@.len(),
                sorted_points(acc@),
                acc@.to_multiset() == range_spec(
                    stored_seq(self.partitions@.skip(i as int), id),
                    t_start,
                    t_end,
                ).to_multiset(),
            decreases i,
        {
            i = i - 1;
            let part_pts = self.partitions[i].select(id, t_start, t_end);
            proof {
                let ps = self.partitions@;
                assert(ps[i as int].wf());
                crate::partition::lemma_lookup_sorted(
                    ps[i as int].inner().series.entries@,
                    id,
                );
                lemma_range_spec_sorted(ps[i as int].inner().series.series(id), t_start, t_end);
            }
            let merged = merge_sorted(&acc, &part_pts);
            acc = merged;
            proof {
                let ps = self.partitions@;
                let t = ps.skip(i as int);
                assert(t[0] == ps[i as int]);
                assert(t.skip(1) =~= ps.skip(i as int + 1));
                lemma_range_spec_add(
                    ps[i as int].inner().series.series(id),
                    stored_seq(ps.skip(i as int + 1), id),
                    t_start,
                    t_end,
                );
                lemma_multiset_commutative(
                    range_spec(ps[i as int].inner().series.series(id), t_start, t_end),
                    range_spec(stored_seq(ps.skip(i as int + 1), id), t_start, t_end),
                );
                assert(acc@.to_multiset() =~= range_spec(
                    stored_seq(ps.skip(i as int), id),
                    t_start,
                    t_end,
                ).to_multiset());
            }
        }
        proof {
            assert(self.partitions@.skip(0) =~= self.partitions@);
        }
        Ok(acc)
    }

    /// The position of the window `k` in the list ordered by
    /// descending index: every earlier partition is newer than `k`,
    /// and the partition at the position, if any, is at most `k`.
    fn find_window(&self, k: i64) -> (j: usize)
        requires
            self.wf(),
        ensures
            j <= self.partitions@.len(),
            forall|t: int| 0 <= t < j ==> (#[trigger] self.partitions@[t]).inner().index > k,
            j < self.partitions@.len() ==> self.partitions@[j as int].inner().index <= k,
    {
        let mut j: usize = 0;
        while j < self.partitions.len()
            invariant
                j <= self.partitions@.len(),
                forall|t: int| 0 <= t < j ==> (#[trigger] self.partitions@[t]).inner().index > k,
            decreases self.partitions@.len() - j,
        {
            let idx = self.partition_index_at(j);
            if idx <= k {
                return j;
            }
            j = j + 1;
        }
        j
    }
}

/// Configuration for a storage instance.  Durations are given in whole
/// seconds and converted to the configured precision on build.
pub struct StorageBuilder {
    pub precision: TimestampPrecision,
    pub partition_duration_secs: u64,
    pub retention_secs: u64,
    pub wal_enabled: bool,
    pub wal_buffer_size: usize,
    pub flush_interval_secs: u64,
    pub writable_partitions: usize,
}

impl StorageBuilder {
    /// The builder invariant: a partition must span time.
    pub open spec fn wf(&self) -> bool {
        self.partition_duration_secs > 0 && self.writable_partitions >= 1
    }

    /// Defaults: nanosecond precision, one-hour partitions, fourteen
    /// days of retention, a buffered write-ahead log.
    pub fn new() -> (r: StorageBuilder)
        ensures
            r.wf(),
            r.precision == TimestampPrecision::Nanoseconds,
            r.partition_duration_secs == 3600,
            r.retention_secs == 14 * 86400,
            r.wal_enabled,
            r.wal_buffer_size == 4096,
            r.flush_interval_secs == 30,
            r.writable_partitions == 2,
    {
        StorageBuilder {
            precision: TimestampPrecision::Nanoseconds,
            partition_duration_secs: 3600,
            retention_secs: 14 * 86400,
            wal_enabled: true,
            wal_buffer_size: 4096,
            flush_interval_secs: 30,
            writable_partitions: 2,
        }
    }

    pub fn with_timestamp_precision(self, precision: TimestampPrecision) -> (r: StorageBuilder)
        requires
            self.wf(),
        ensures
            r.wf(),
            r == (StorageBuilder { precision, ..self }),
    {
        StorageBuilder { precision, ..self }
    }

    pub fn with_partition_duration(self, secs: u64) -> (r: StorageBuilder)
        requires
            self.wf(),
            secs > 0,
        ensures
            r.wf(),
            r == (StorageBuilder { partition_duration_secs: secs, ..self }),
    {
        StorageBuilder { partition_duration_secs: secs, ..self }
    }

    pub fn with_retention(self, secs: u64) -> (r: StorageBuilder)
        requires
            self.wf(),
        ensures
            r.wf(),
            r == (StorageBuilder { retention_secs: secs, ..self }),
    {
        StorageBuilder { retention_secs: secs, ..self }
    }

    pub fn with_wal_enabled(self, enabled: bool) -> (r: StorageBuilder)
        requires
            self.wf(),
        ensures
            r.wf(),
            r == (StorageBuilder { wal_enabled: enabled, ..self }),
    {
        StorageBuilder { wal_enabled: enabled, ..self }
    }

    pub fn with_writable_partitions(self, count: usize) -> (r: StorageBuilder)
        requires
            self.wf(),
            count >= 1,
        ensures
            r.wf(),
            r == (StorageBuilder { writable_partitions: count, ..self }),
    {
        StorageBuilder { writable_partitions: count, ..self }
    }

    pub fn with_wal_buffer_size(self, bytes: usize) -> (r: StorageBuilder)
        requires
            self.wf(),
        ensures
            r.wf(),
            r == (StorageBuilder { wal_buffer_size: bytes, ..self }),
    {
        StorageBuilder { wal_buffer_size: bytes, ..self }
    }

    /// An empty storage with the configured precision and partition
    /// duration, the latter converted to precision units.
    pub fn build(self) -> (r: Result<Storage, TsinkError>)
        requires
            self.wf(),
        ensures
            r matches Ok(s) && s.wf() && s.partitions@.len() == 0 && s.precision == self.precision
                && s.writable_partitions == self.writable_partitions && s.partition_duration
                == duration_units(self.partition_duration_secs as nat, 0, self.precision),
    {
        let d = duration_to_units(self.partition_duration_secs, 0, self.precision);
        proof {
            let total = (self.partition_duration_secs as int) * 1_000_000_000;
            let div = crate::time::unit_nanos(self.precision) as int;
            lemma_mul_inequality(1, self.partition_duration_secs as int, 1_000_000_000);
            lemma_div_non_zero(total, div);
        }
        Ok(
            Storage {
                precision: self.precision,
                partition_duration: d,
                writable_partitions: self.writable_partitions,
                partitions: Vec::new(),
            },
        )
    }
}

/// Two partition lists with the same cores store the same points.
proof fn lemma_stored_seq_inner_eq(a: Seq<Partition>, b: Seq<Partition>, id: u64)
    requires
        a.len() == b.len(),
        forall|t: int| 0 <= t < a.len() ==> (#[trigger] a[t]).inner() == b[t].inner(),
    ensures
        stored_seq(a, id) == stored_seq(b, id),
    decreases a.len(),
{
    if a.len() > 0 {
        lemma_stored_seq_inner_eq(a.skip(1), b.skip(1), id);
        assert(a.skip(1).len() == b.skip(1).len());
        assert(stored_seq(a, id) =~= stored_seq(b, id));
    }
}

impl Storage {
    /// Seal every partition: each memory partition becomes an
    /// immutable disk partition with the same contents.  Afterwards a
    /// write into any existing window is rejected as `PastWindow`.
    pub fn flush_partitions(&mut self)
        requires
            old(self).wf(),
        ensures
            final(self).wf(),
            final(self).precision == old(self).precision,
            final(self).partition_duration == old(self).partition_duration,
            forall|id: u64| #[trigger] final(self).stored(id) == old(self).stored(id),
            forall|t: int| 0 <= t < final(self).partitions@.len() ==> !(
            #[trigger] final(self).partitions@[t]).is_memory(),
    {
        let ghost parts0 = self.partitions@;
        let mut i: usize = 0;
        while i < self.partitions.len()
            invariant
                self.wf(),
                self.precision == old(self).precision,
                self.partition_duration == old(self).partition_duration,
                i <= self.partitions@.len(),
                self.partitions@.len() == parts0.len(),
                forall|t: int| 0 <= t < parts0.len() ==> (#[trigger] self.partitions@[t]).inner()
                    == parts0[t].inner(),
                forall|t: int| 0 <= t < i ==> !(#[trigger] self.partitions@[t]).is_memory(),
            decreases self.partitions@.len() - i,
        {
            let ghost before = self.partitions@;
            let part = self.partitions.remove(i);
            let core = match part {
                Partition::Memory(c) => c,
                Partition::Disk(c) => c,
            };
            self.partitions.insert(i, Partition::Disk(core));
            proof {
                assert(self.partitions@ =~= before.update(i as int, Partition::Disk(core)));
            }
            i = i + 1;
        }
        proof {
            lemma_stored_seq_inner_eq(self.partitions@, parts0, 0);
            assert forall|id: u64| #[trigger] stored_ms(self.partitions@, id) == stored_ms(
                parts0,
                id,
            ) by {
                lemma_stored_seq_inner_eq(self.partitions@, parts0, id);
            }
        }
    }
}

/// Whether eviction keeps a partition: writable ones always stay; a
/// sealed one stays while its newest point is within retention.
pub open spec fn evict_keep(p: Partition, threshold: i64) -> bool {
    p.is_memory() || p.inner().max_timestamp >= threshold
}

/// The partition list after evicting sealed partitions whose newest
/// point fell out of retention.
pub open spec fn evict_spec(parts: Seq<Partition>, threshold: i64) -> Seq<Partition>
    decreases parts.len(),
{
    if parts.len() == 0 {
        Seq::empty()
    } else {
        (if evict_keep(parts[0], threshold) {
            seq![parts[0]]
        } else {
            Seq::empty()
        }) + evict_spec(parts.skip(1), threshold)
    }
}

impl Storage {
    /// Seal every non-head memory partition whose newest point is
    /// older than the threshold.  Contents are unchanged; only those
    /// partitions stop accepting writes.
    pub fn flush_older_than(&mut self, threshold: i64)
        requires
            old(self).wf(),
        ensures
            final(self).wf(),
            final(self).precision == old(self).precision,
            final(self).partition_duration == old(self).partition_duration,
            final(self).writable_partitions == old(self).writable_partitions,
            final(self).partitions@.len() == old(self).partitions@.len(),
            forall|id: u64| #[trigger] final(self).stored(id) == old(self).stored(id),
            forall|t: int| 0 <= t < final(self).partitions@.len()
                ==> (#[trigger] final(self).partitions@[t]).inner() == old(
                self,
            ).partitions@[t].inner(),
            forall|t: int| 0 <= t < final(self).partitions@.len()
                ==> ((#[trigger] final(self).partitions@[t]).is_memory() <==> (old(
                self,
            ).partitions@[t].is_memory() && !(t > 0
                && old(self).partitions@[t].inner().max_timestamp < threshold))),
    {
        let ghost parts0 = self.partitions@;
        let mut i: usize = 1;
        while i < self.partitions.len()
            invariant
                self.wf(),
                self.precision == old(self).precision,
                self.partition_duration == old(self).partition_duration,
                self.writable_partitions == old(self).writable_partitions,
                1 <= i,
                i <= self.partitions@.len() || self.partitions@.len() == 0,
                self.partitions@.len() == parts0.len(),
                forall|t: int| 0 <= t < parts0.len() ==> (#[trigger] self.partitions@[t]).inner()
                    == parts0[t].inner(),
                forall|t: int| 0 <= t < i && t < parts0.len()
                    ==> ((#[trigger] self.partitions@[t]).is_memory() <==> (
                parts0[t].is_memory() && !(t > 0 && parts0[t].inner().max_timestamp < threshold))),
                forall|t: int| i <= t < parts0.len() ==> (#[trigger] self.partitions@[t])
                    == parts0[t],
            decreases self.partitions@.len() - i,
        {
            let ghost before = self.partitions@;
            let seal = match &self.partitions[i] {
                Partition::Memory(c) => c.max_timestamp < threshold,
                Partition::Disk(_) => false,
            };
            if seal {
                let part = self.partitions.remove(i);
                let core = match part {
                    Partition::Memory(c) => c,
                    Partition::Disk(c) => c,
                };
                self.partitions.insert(i, Partition::Disk(core));
                proof {
                    assert(self.partitions@ =~= before.update(i as int, Partition::Disk(core)));
                }
            }
            i = i + 1;
        }
        proof {
            assert forall|id: u64| #[trigger] stored_ms(self.partitions@, id) == stored_ms(
                parts0,
                id,
            ) by {
                lemma_stored_seq_inner_eq(self.partitions@, parts0, id);
            }
        }
    }

    /// Drop every sealed partition whose newest point is older than
    /// the retention threshold.
    pub fn evict_older_than(&mut self, threshold: i64)
        requires
            old(self).wf(),
        ensures
            final(self).wf(),
            final(self).precision == old(self).precision,
            final(self).partition_duration == old(self).partition_duration,
            final(self).writable_partitions == old(self).writable_partitions,
            final(self).partitions@ == evict_spec(old(self).partitions@, threshold),
    {
        let ghost parts0 = self.partitions@;
        let d = self.partition_duration;
        let mut out: Vec<Partition> = Vec::new();
        let ghost mut i: int = 0;
        proof {
            assert(parts0.skip(0) =~= parts0);
            assert(out@ + evict_spec(parts0, threshold) =~= evict_spec(parts0, threshold));
        }
        while self.partitions.len() > 0
            invariant
                self.precision == old(self).precision,
                self.partition_duration == d,
                self.writable_partitions == old(self).writable_partitions,
                self.writable_partitions >= 1,
                d > 0,
                0 <= i <= parts0.len(),
                self.partitions@ == parts0.skip(i),
                forall|t: int| 0 <= t < parts0.len() ==> (#[trigger] parts0[t]).wf()
                    && parts0[t].inner().duration == d,
                forall|a: int, b: int| 0 <= a < b < parts0.len() ==> parts0[a].inner().index
                    > parts0[b].inner().index,
                evict_spec(parts0, threshold) == out@ + evict_spec(parts0.skip(i), threshold),
                forall|a: int| 0 <= a < out@.len() ==> (#[trigger] out@[a]).wf()
                    && out@[a].inner().duration == d,
                forall|a: int, b: int| 0 <= a < b < out@.len() ==> out@[a].inner().index
                    > out@[b].inner().index,
                i < parts0.len() ==> forall|a: int| 0 <= a < out@.len()
                    ==> (#[trigger] out@[a]).inner().index > parts0[i].inner().index,
            decreases parts0.len() - i,
        {
            proof {
                let t = parts0.skip(i);
                assert(t[0] == parts0[i]);
                assert(t.skip(1) =~= parts0.skip(i + 1));
            }
            let part = self.partitions.remove(0);
            proof {
                assert(self.partitions@ =~= parts0.skip(i + 1));
            }
            let keep = match &part {
                Partition::Memory(_) => true,
                Partition::Disk(c) => c.max_timestamp >= threshold,
            };
            if keep {
                let ghost out_before = out@;
                out.push(part);
                proof {
                    assert(out@ + evict_spec(parts0.skip(i + 1), threshold) =~= out_before + (
                    seq![parts0[i]] + evict_spec(parts0.skip(i + 1), threshold)));
                }
            } else {
                proof {
                    assert(!evict_keep(parts0[i], threshold));
                    assert(out@ + evict_spec(parts0.skip(i + 1), threshold) =~= out@ + (Seq::<
                        Partition,
                    >::empty() + evict_spec(parts0.skip(i + 1), threshold)));
                }
            }
            proof {
                i = i + 1;
            }
        }
        proof {
            assert(parts0.skip(parts0.len() as int) =~= Seq::<Partition>::empty());
            assert(i == parts0.len());
            assert(out@ + Seq::<Partition>::empty() =~= out@);
        }
        self.partitions = out;
    }
}

/// A select window that covers every stored point of a series returns
/// exactly the stored multiset: composed with the contracts of
/// `insert_rows` and `select`, the multiset of points inserted equals
/// the multiset of points a spanning query returns.
pub proof fn lemma_select_round_trip(s: Seq<DataPoint>, lo: i64, hi: i64)
    requires
        forall|i: int| 0 <= i < s.len() ==> crate::series::in_range(#[trigger] s[i], lo, hi),
    ensures
        range_spec(s, lo, hi).to_multiset() == s.to_multiset(),
{
    crate::series::lemma_range_spec_all(s, lo, hi);
}

/// Every point a batch folds into a series is the point of one of its
/// rows for that series.
proof fn lemma_apply_rows_ms_members(
    base: Multiset<DataPoint>,
    rows: Seq<RowModel>,
    id: u64,
    x: DataPoint,
)
    requires
        apply_rows_ms(base, rows, id).count(x) > 0,
    ensures
        base.count(x) > 0 || exists|k: int|
            0 <= k < rows.len() && row_id(#[trigger] rows[k]) == id && rows[k].point == x,
    decreases rows.len(),
{
    broadcast use group_multiset_axioms;

    if rows.len() > 0 {
        let base2 = if row_id(rows[0]) == id {
            base.insert(rows[0].point)
        } else {
            base
        };
        lemma_apply_rows_ms_members(base2, rows.skip(1), id, x);
        if base2.count(x) > 0 {
            if base.count(x) == 0 {
                assert(row_id(rows[0]) == id && rows[0].point == x);
            }
        } else {
            let k = choose|k: int|
                0 <= k < rows.skip(1).len() && row_id(#[trigger] rows.skip(1)[k]) == id
                    && rows.skip(1)[k].point == x;
            assert(rows[k + 1] == rows.skip(1)[k]);
        }
    }
}

/// Round trip for one batch: a query whose window covers every point
/// the batch wrote to a series returns exactly the multiset of points
/// the batch inserted there.  `s` is what the engine stores for the
/// series after the batch lands in an empty store, as `insert_rows`
/// states it; `range_spec(s, lo, hi)` is what `select` answers.
pub proof fn lemma_insert_select_round_trip(
    rows: Seq<RowModel>,
    id: u64,
    s: Seq<DataPoint>,
    lo: i64,
    hi: i64,
)
    requires
        s.to_multiset() == apply_rows_ms(Multiset::empty(), rows, id),
        forall|k: int| 0 <= k < rows.len() && row_id(#[trigger] rows[k]) == id
            ==> crate::series::in_range(rows[k].point, lo, hi),
    ensures
        range_spec(s, lo, hi).to_multiset() == apply_rows_ms(
            Multiset::<DataPoint>::empty(),
            rows,
            id,
        ),
{
    broadcast use group_to_multiset_ensures;
    broadcast use group_multiset_axioms;

    assert forall|i: int| 0 <= i < s.len() implies crate::series::in_range(
        #[trigger] s[i],
        lo,
        hi,
    ) by {
        assert(s.contains(s[i]));
        assert(s.to_multiset().count(s[i]) > 0);
        lemma_apply_rows_ms_members(Multiset::empty(), rows, id, s[i]);
    }
    crate::series::lemma_range_spec_all(s, lo, hi);
}

/// A series identifier no partition holds stores nothing, so a query
/// for an unknown metric returns the empty sequence rather than an
/// error.
pub proof fn lemma_unknown_series_empty(parts: Seq<Partition>, id: u64)
    requires
        forall|t: int| 0 <= t < parts.len() ==> (#[trigger] parts[t]).inner().series.series(id)
            == Seq::<DataPoint>::empty(),
    ensures
        stored_seq(parts, id) == Seq::<DataPoint>::empty(),
    decreases parts.len(),
{
    if parts.len() > 0 {
        lemma_unknown_series_empty(parts.skip(1), id);
        assert(stored_seq(parts, id) =~= Seq::<DataPoint>::empty());
    }
}

} // verus!
