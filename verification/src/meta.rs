use vstd::prelude::*;
use crate::codec::{dec_uvarint, enc_uvarint, lemma_uvarint_round_trip, push_uvarint, read_uvarint};
use crate::errors::TsinkError;
use crate::types::Label;
use crate::wal::{
    codes_of, codes_valid, dec_labels, dec_str, enc_labels, enc_str, label_codes_of,
    lemma_labels_round_trip, lemma_str_round_trip, push_str, read_str,
};

verus! {

/// One line of a partition's index: which byte range of the `data`
/// file holds the series of this metric key.
pub struct MetaEntry {
    pub metric: String,
    pub labels: Vec<Label>,
    pub offset: u64,
    pub length: u64,
}

/// A meta entry as its code points: what the index file stores.
pub struct MetaCodes {
    pub metric: Seq<u32>,
    pub labels: Seq<(Seq<u32>, Seq<u32>)>,
    pub offset: u64,
    pub length: u64,
}

impl View for MetaEntry {
    type V = MetaCodes;

    open spec fn view(&self) -> MetaCodes {
        MetaCodes {
            metric: codes_of(self.metric@),
            labels: label_codes_of(self.labels@),
            offset: self.offset,
            length: self.length,
        }
    }
}

pub open spec fn metas_codes(es: Seq<MetaEntry>) -> Seq<MetaCodes> {
    es.map_values(|e: MetaEntry| e@)
}

/// One index entry: metric, label count and labels, then the block's
/// offset and length as varints.
pub open spec fn enc_meta_entry(e: MetaCodes) -> Seq<u8> {
    enc_str(e.metric) + enc_uvarint(e.labels.len() as u128) + enc_labels(e.labels) + enc_uvarint(
        e.offset as u128,
    ) + enc_uvarint(e.length as u128)
}

/// A whole index: its entries, back to back.
pub open spec fn enc_meta(es: Seq<MetaCodes>) -> Seq<u8>
    decreases es.len(),
{
    if es.len() == 0 {
        Seq::empty()
    } else {
        enc_meta_entry(es[0]) + enc_meta(es.skip(1))
    }
}

/// Parse one index entry.  `None` is a malformed stream.
pub open spec fn dec_meta_entry(b: Seq<u8>) -> Option<(MetaCodes, Seq<u8>)> {
    match dec_str(b) {
        None => None,
        Some((metric, b2)) => match dec_uvarint(b2) {
            None => None,
            Some((nl, b3)) => if nl <= usize::MAX {
                match dec_labels(b3, nl as nat) {
                    None => None,
                    Some((labels, b4)) => match dec_uvarint(b4) {
                        None => None,
                        Some((offset, b5)) => match dec_uvarint(b5) {
                            None => None,
                            Some((length, b6)) => if offset <= u64::MAX && length <= u64::MAX {
                                Some(
                                    (
                                        MetaCodes {
                                            metric,
                                            labels,
                                            offset: offset as u64,
                                            length: length as u64,
                                        },
                                        b6,
                                    ),
                                )
                            } else {
                                None
                            },
                        },
                    },
                }
            } else {
                None
            },
        },
    }
}

/// Parse a whole index: entries until the stream is exhausted.
pub open spec fn dec_meta(b: Seq<u8>) -> Option<Seq<MetaCodes>>
    decreases b.len(),
{
    if b.len() == 0 {
        Some(Seq::empty())
    } else {
        match dec_meta_entry(b) {
            None => None,
            Some((e, rest)) => if rest.len() < b.len() {
                match dec_meta(rest) {
                    None => None,
                    Some(es) => Some(seq![e] + es),
                }
            } else {
                None
            },
        }
    }
}

/// Whether an entry's strings are valid, bounded strings.
pub open spec fn meta_codes_valid(e: MetaCodes) -> bool {
    &&& codes_valid(e.metric)
    &&& e.metric.len() <= usize::MAX
    &&& e.labels.len() <= usize::MAX
    &&& forall|i: int| 0 <= i < e.labels.len() ==> codes_valid(#[trigger] e.labels[i].0)
        && codes_valid(e.labels[i].1) && e.labels[i].0.len() <= usize::MAX && e.labels[i].1.len()
        <= usize::MAX
}

proof fn lemma_enc_uvarint_nonempty(v: u128)
    ensures
        enc_uvarint(v).len() >= 1,
    decreases v,
{
    if v >= 128 {
        lemma_enc_uvarint_nonempty(v / 128);
    }
}

proof fn lemma_meta_entry_round_trip(e: MetaCodes, rest: Seq<u8>)
    requires
        meta_codes_valid(e),
    ensures
        dec_meta_entry(enc_meta_entry(e) + rest) == Some((e, rest)),
        enc_meta_entry(e).len() >= 1,
{
    let tail3 = enc_uvarint(e.offset as u128) + enc_uvarint(e.length as u128);
    let tail2 = enc_labels(e.labels) + tail3;
    let tail1 = enc_uvarint(e.labels.len() as u128) + tail2;
    assert(enc_meta_entry(e) + rest =~= enc_str(e.metric) + (tail1 + rest));
    assert(tail1 + rest =~= enc_uvarint(e.labels.len() as u128) + (tail2 + rest));
    assert(tail2 + rest =~= enc_labels(e.labels) + (tail3 + rest));
    assert(tail3 + rest =~= enc_uvarint(e.offset as u128) + (enc_uvarint(e.length as u128)
        + rest));
    lemma_str_round_trip(e.metric, tail1 + rest);
    lemma_uvarint_round_trip(e.labels.len() as u128, tail2 + rest);
    lemma_labels_round_trip(e.labels, tail3 + rest);
    lemma_uvarint_round_trip(e.offset as u128, enc_uvarint(e.length as u128) + rest);
    lemma_uvarint_round_trip(e.length as u128, rest);
    lemma_enc_uvarint_nonempty(e.metric.len() as u128);
}

/// Parsing an encoded index yields exactly its entries: the partition
/// index round-trips through its file.
pub proof fn lemma_meta_round_trip(es: Seq<MetaCodes>)
    requires
        forall|i: int| 0 <= i < es.len() ==> meta_codes_valid(#[trigger] es[i]),
    ensures
        dec_meta(enc_meta(es)) == Some(es),
    decreases es.len(),
{
    if es.len() > 0 {
        lemma_meta_round_trip(es.skip(1));
        let b = enc_meta(es);
        lemma_meta_entry_round_trip(es[0], enc_meta(es.skip(1)));
        assert(b =~= enc_meta_entry(es[0]) + enc_meta(es.skip(1)));
        assert(b.len() >= 1);
        assert(seq![es[0]] + es.skip(1) =~= es);
    }
}

/// Encode one index entry.
fn encode_meta_entry(out: &mut Vec<u8>, e: &MetaEntry)
    ensures
        final(out)@ == old(out)@ + enc_meta_entry(e@),
{
    let ghost ec = e@;
    let ghost out0 = out@;
    push_str(out, e.metric.as_str());
    push_uvarint(out, e.labels.len() as u128);
    proof {
        assert(ec.labels.len() == e.labels@.len());
        assert(ec.labels.skip(0) =~= ec.labels);
    }
    let ghost mid = out@;
    let mut i: usize = 0;
    while i < e.labels.len()
        invariant
            i <= e.labels@.len(),
            ec == e@,
            ec.labels.len() == e.labels@.len(),
            out@ + enc_labels(ec.labels.skip(i as int)) == mid + enc_labels(ec.labels),
        decreases e.labels@.len() - i,
    {
        let l = &e.labels[i];
        proof {
            let t = ec.labels.skip(i as int);
            assert(ec.labels[i as int] == (codes_of(e.labels@[i as int]@.0), codes_of(
                e.labels@[i as int]@.1,
            )));
            assert(t[0] == ec.labels[i as int]);
            assert(t.skip(1) =~= ec.labels.skip(i as int + 1));
        }
        let ghost before = out@;
        push_str(out, l.name.as_str());
        push_str(out, l.value.as_str());
        proof {
            assert(out@ + enc_labels(ec.labels.skip(i as int + 1)) =~= before + (enc_str(
                ec.labels[i as int].0,
            ) + (enc_str(ec.labels[i as int].1) + enc_labels(ec.labels.skip(i as int + 1)))));
        }
        i = i + 1;
    }
    proof {
        assert(ec.labels.skip(ec.labels.len() as int) =~= Seq::<(Seq<u32>, Seq<u32>)>::empty());
        assert(out@ + Seq::<u8>::empty() =~= out@);
    }
    push_uvarint(out, e.offset as u128);
    push_uvarint(out, e.length as u128);
    proof {
        assert(out@ =~= out0 + enc_meta_entry(ec));
    }
}

/// Encode a whole index.
pub fn encode_meta(entries: &Vec<MetaEntry>) -> (r: Vec<u8>)
    ensures
        r@ == enc_meta(metas_codes(entries@)),
{
    let ghost ecs = metas_codes(entries@);
    let mut out: Vec<u8> = Vec::new();
    let mut i: usize = 0;
    proof {
        assert(ecs.skip(0) =~= ecs);
        assert(ecs.len() == entries@.len());
        assert(out@ + enc_meta(ecs) =~= enc_meta(ecs));
    }
    while i < entries.len()
        invariant
            i <= entries@.len(),
            ecs == metas_codes(entries@),
            ecs.len() == entries@.len(),
            out@ + enc_meta(ecs.skip(i as int)) == enc_meta(ecs),
        decreases entries@.len() - i,
    {
        proof {
            let t = ecs.skip(i as int);
            assert(ecs[i as int] == entries@[i as int]@);
            assert(t[0] == ecs[i as int]);
            assert(t.skip(1) =~= ecs.skip(i as int + 1));
        }
        let ghost before = out@;
        encode_meta_entry(&mut out, &entries[i]);
        proof {
            assert(out@ + enc_meta(ecs.skip(i as int + 1)) =~= before + (enc_meta_entry(
                ecs[i as int],
            ) + enc_meta(ecs.skip(i as int + 1))));
        }
        i = i + 1;
    }
    proof {
        assert(ecs.skip(ecs.len() as int) =~= Seq::<MetaCodes>::empty());
        assert(out@ + Seq::<u8>::empty() =~= out@);
    }
    out
}

/// Parse one index entry starting at `pos`.
fn parse_meta_entry(b: &Vec<u8>, pos: usize) -> (r: Option<(MetaEntry, usize)>)
    requires
        pos <= b@.len(),
    ensures
        match r {
            Some(ep) => pos < ep.1 <= b@.len() && dec_meta_entry(b@.skip(pos as int)) == Some(
                (ep.0@, b@.skip(ep.1 as int)),
            ),
            None => dec_meta_entry(b@.skip(pos as int)) is None,
        },
{
    let (metric, p1) = match read_str(b, pos) {
        None => {
            return None;
        },
        Some(sp) => sp,
    };
    let (nl, mut p) = match read_uvarint(b, p1) {
        None => {
            return None;
        },
        Some(vp) => vp,
    };
    if nl > usize::MAX as u128 {
        return None;
    }
    let count = nl as usize;
    let ghost p_start = p as int;
    let mut labels: Vec<Label> = Vec::new();
    let mut i: usize = 0;
    proof {
        let inner = dec_labels(b@.skip(p as int), count as nat);
        if inner is Some {
            let pr = inner->Some_0;
            assert(label_codes_of(labels@) + pr.0 =~= pr.0);
        }
    }
    while i < count
        invariant
            i <= count,
            p <= b@.len(),
            p1 <= b@.len(),
            pos <= b@.len(),
            pos < p1,
            p1 < p_start,
            p_start <= p as int,
            dec_str(b@.skip(pos as int)) == Some((codes_of(metric@), b@.skip(p1 as int))),
            dec_uvarint(b@.skip(p1 as int)) == Some((nl, b@.skip(p_start))),
            nl == count as u128,
            dec_labels(b@.skip(p_start), count as nat) == (match dec_labels(
                b@.skip(p as int),
                (count - i) as nat,
            ) {
                None => None::<(Seq<(Seq<u32>, Seq<u32>)>, Seq<u8>)>,
                Some(pr) => Some((label_codes_of(labels@) + pr.0, pr.1)),
            }),
        decreases count - i,
    {
        let ghost n_rem = (count - i) as nat;
        let (name, pn) = match read_str(b, p) {
            None => {
                proof {
                    assert(dec_labels(b@.skip(p as int), n_rem) is None);
                    assert(dec_labels(b@.skip(p_start), count as nat) is None);
                    assert(dec_meta_entry(b@.skip(pos as int)) is None);
                }
                return None;
            },
            Some(sp) => sp,
        };
        let (value, pv) = match read_str(b, pn) {
            None => {
                proof {
                    assert(dec_labels(b@.skip(p as int), n_rem) is None);
                    assert(dec_labels(b@.skip(p_start), count as nat) is None);
                    assert(dec_meta_entry(b@.skip(pos as int)) is None);
                }
                return None;
            },
            Some(sp) => sp,
        };
        let l = Label { name, value };
        proof {
            let inner = dec_labels(b@.skip(pv as int), (n_rem - 1) as nat);
            if inner is Some {
                let pr2 = inner->Some_0;
                assert(dec_labels(b@.skip(p as int), n_rem) == Some(
                    (seq![(codes_of(l.name@), codes_of(l.value@))] + pr2.0, pr2.1),
                ));
                assert(label_codes_of(labels@) + (seq![(codes_of(l.name@), codes_of(l.value@))]
                    + pr2.0) =~= (label_codes_of(labels@) + seq![
                    (codes_of(l.name@), codes_of(l.value@)),
                ]) + pr2.0);
                assert(label_codes_of(labels@.push(l)) =~= label_codes_of(labels@) + seq![
                    (codes_of(l.name@), codes_of(l.value@)),
                ]);
            } else {
                assert(dec_labels(b@.skip(p as int), n_rem) is None);
            }
        }
        labels.push(l);
        p = pv;
        i = i + 1;
    }
    proof {
        assert(dec_labels(b@.skip(p as int), 0) == Some(
            (Seq::<(Seq<u32>, Seq<u32>)>::empty(), b@.skip(p as int)),
        ));
        assert(label_codes_of(labels@) + Seq::<(Seq<u32>, Seq<u32>)>::empty() =~= label_codes_of(
            labels@,
        ));
    }
    let (offset, p2) = match read_uvarint(b, p) {
        None => {
            return None;
        },
        Some(vp) => vp,
    };
    if offset > u64::MAX as u128 {
        return None;
    }
    let (length, p3) = match read_uvarint(b, p2) {
        None => {
            return None;
        },
        Some(vp) => vp,
    };
    if length > u64::MAX as u128 {
        return None;
    }
    let entry = MetaEntry { metric, labels, offset: offset as u64, length: length as u64 };
    proof {
        assert(entry@.metric =~= codes_of(entry.metric@));
        assert(entry@.labels =~= label_codes_of(labels@));
        assert(dec_meta_entry(b@.skip(pos as int)) == Some((entry@, b@.skip(p3 as int))));
    }
    Some((entry, p3))
}

/// Parse a whole index file.  A malformed stream is `CorruptBlock`.
pub fn parse_meta(b: &Vec<u8>) -> (r: Result<Vec<MetaEntry>, TsinkError>)
    ensures
        match r {
            Ok(v) => dec_meta(b@) == Some(metas_codes(v@)),
            Err(e) => e == TsinkError::CorruptBlock && dec_meta(b@) is None,
        },
{
    let mut acc: Vec<MetaEntry> = Vec::new();
    let mut pos: usize = 0;
    proof {
        assert(b@.skip(0) =~= b@);
        let inner = dec_meta(b@.skip(pos as int));
        if inner is Some {
            assert(metas_codes(acc@) + inner->Some_0 =~= inner->Some_0);
        }
    }
    while pos < b.len()
        invariant
            pos <= b@.len(),
            dec_meta(b@) == (match dec_meta(b@.skip(pos as int)) {
                None => None::<Seq<MetaCodes>>,
                Some(es) => Some(metas_codes(acc@) + es),
            }),
        decreases b@.len() - pos,
    {
        let entry = match parse_meta_entry(b, pos) {
            None => {
                proof {
                    assert(b@.skip(pos as int).len() > 0);
                    assert(dec_meta(b@.skip(pos as int)) is None);
                }
                return Err(TsinkError::CorruptBlock);
            },
            Some(ep) => ep,
        };
        let (e, p2) = entry;
        proof {
            assert(b@.skip(pos as int).len() > 0);
            assert(b@.skip(p2 as int).len() < b@.skip(pos as int).len());
            let inner = dec_meta(b@.skip(p2 as int));
            if inner is Some {
                let es = inner->Some_0;
                assert(dec_meta(b@.skip(pos as int)) == Some(seq![e@] + es));
                assert(metas_codes(acc@) + (seq![e@] + es) =~= (metas_codes(acc@) + seq![e@])
                    + es);
                assert(metas_codes(acc@.push(e)) =~= metas_codes(acc@) + seq![e@]);
            } else {
                assert(dec_meta(b@.skip(pos as int)) is None);
            }
        }
        acc.push(e);
        pos = p2;
    }
    proof {
        assert(b@.skip(pos as int).len() == 0);
        assert(dec_meta(b@.skip(pos as int)) == Some(Seq::<MetaCodes>::empty()));
        assert(metas_codes(acc@) + Seq::<MetaCodes>::empty() =~= metas_codes(acc@));
    }
    Ok(acc)
}

} // verus!
