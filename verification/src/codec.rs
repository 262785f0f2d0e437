use vstd::prelude::*;
use vstd::arithmetic::div_mod::{
    lemma_div_is_ordered, lemma_div_multiples_vanish, lemma_fundamental_div_mod, lemma_mod_bound,
};
use crate::types::DataPoint;

verus! {

/// Little-endian base-128 encoding of an unsigned value, continuation
/// bit in the high bit of each byte.
pub open spec fn enc_uvarint(v: u128) -> Seq<u8>
    decreases v,
{
    if v < 128 {
        seq![v as u8]
    } else {
        seq![((v % 128) + 128) as u8] + enc_uvarint(v / 128)
    }
}

/// Parse one base-128 value from the front of a byte stream; `None` on
/// an empty or truncated stream and on a value beyond `u128`.
pub open spec fn dec_uvarint(b: Seq<u8>) -> Option<(u128, Seq<u8>)>
    decreases b.len(),
{
    if b.len() == 0 {
        None
    } else if b[0] < 128 {
        Some((b[0] as u128, b.skip(1)))
    } else {
        match dec_uvarint(b.skip(1)) {
            None => None,
            Some((hi, rest)) => if hi <= (u128::MAX - ((b[0] - 128) as u128)) / 128 {
                Some((((b[0] - 128) as u128 + 128 * hi) as u128, rest))
            } else {
                None
            },
        }
    }
}

/// Decoding undoes encoding, leaving the rest of the stream untouched.
pub proof fn lemma_uvarint_round_trip(v: u128, rest: Seq<u8>)
    ensures
        dec_uvarint(enc_uvarint(v) + rest) == Some((v, rest)),
    decreases v,
{
    let b = enc_uvarint(v) + rest;
    if v < 128 {
        assert(b[0] == v as u8);
        assert(b.skip(1) =~= rest);
    } else {
        lemma_uvarint_round_trip(v / 128, rest);
        assert(b[0] == ((v % 128) + 128) as u8);
        assert(b.skip(1) =~= enc_uvarint(v / 128) + rest);
        let lo = (b[0] - 128) as u128;
        let hi = v / 128;
        lemma_fundamental_div_mod(v as int, 128);
        lemma_mod_bound(v as int, 128);
        assert(lo == v % 128);
        assert(v == lo + 128 * hi);
        assert(hi <= (u128::MAX - lo) / 128) by {
            assert(128 * hi <= u128::MAX - lo);
            lemma_div_is_ordered(128 * (hi as int), u128::MAX - lo, 128);
            lemma_div_multiples_vanish(hi as int, 128);
        }
    }
}

/// Map a signed value to an unsigned one, interleaving positives and
/// negatives so that small magnitudes stay small.
pub open spec fn zigzag(t: int) -> u128
    recommends
        -0x8000_0000_0000_0000_0000_0000_0000_0000 <= 2 * t < 0x8000_0000_0000_0000_0000_0000_0000_0000,
{
    if t >= 0 {
        (2 * t) as u128
    } else {
        ((-2) * t - 1) as u128
    }
}

/// The inverse of `zigzag`.
pub open spec fn unzigzag(z: u128) -> int {
    if z % 2 == 0 {
        (z / 2) as int
    } else {
        -(((z as int) + 1) / 2)
    }
}

pub proof fn lemma_zigzag_round_trip(t: int)
    requires
        -0x4000_0000_0000_0000_0000_0000_0000_0000 <= t
            < 0x4000_0000_0000_0000_0000_0000_0000_0000,
    ensures
        unzigzag(zigzag(t)) == t,
{
    if t >= 0 {
        let z = (2 * t) as u128;
        assert(z % 2 == 0 && z / 2 == t) by {
            lemma_fundamental_div_mod(z as int, 2);
            lemma_div_multiples_vanish(t, 2);
            assert(z as int == 2 * t);
        }
    } else {
        let z = ((-2) * t - 1) as u128;
        assert(z as int == 2 * (-t) - 1);
        assert(z % 2 == 1) by {
            lemma_fundamental_div_mod(z as int, 2);
            lemma_mod_bound(z as int, 2);
        }
        assert((z as int + 1) / 2 == -t) by {
            lemma_div_multiples_vanish(-t, 2);
        }
    }
}

/// The per-sample state of the delta-of-delta chain: previous
/// timestamp, previous delta and previous value bits.  The chain
/// starts from timestamp zero, delta zero and value bits zero.
pub struct CodecState {
    pub prev_ts: i64,
    pub prev_delta: int,
    pub prev_val: u64,
}

pub open spec fn initial_state() -> CodecState {
    CodecState { prev_ts: 0, prev_delta: 0, prev_val: 0 }
}

pub open spec fn next_state(st: CodecState, p: DataPoint) -> CodecState {
    CodecState {
        prev_ts: p.timestamp,
        prev_delta: p.timestamp - st.prev_ts,
        prev_val: p.value,
    }
}

/// One sample: the delta-of-delta of its timestamp, zigzagged, then
/// the XOR of its value bits with the previous value bits, both as
/// base-128 varints.
pub open spec fn enc_sample(st: CodecState, p: DataPoint) -> Seq<u8> {
    let dod = (p.timestamp - st.prev_ts) - st.prev_delta;
    enc_uvarint(zigzag(dod)) + enc_uvarint((p.value ^ st.prev_val) as u128)
}

pub open spec fn enc_samples(st: CodecState, s: Seq<DataPoint>) -> Seq<u8>
    decreases s.len(),
{
    if s.len() == 0 {
        Seq::empty()
    } else {
        enc_sample(st, s[0]) + enc_samples(next_state(st, s[0]), s.skip(1))
    }
}

/// A whole series block: the sample count, then the sample chain.
pub open spec fn enc_points(s: Seq<DataPoint>) -> Seq<u8> {
    enc_uvarint(s.len() as u128) + enc_samples(initial_state(), s)
}

/// Parse one sample.  `None` on a malformed stream or a timestamp out
/// of the 64-bit range.
pub open spec fn dec_sample(b: Seq<u8>, st: CodecState) -> Option<(DataPoint, Seq<u8>)> {
    match dec_uvarint(b) {
        None => None,
        Some((zdod, b2)) => match dec_uvarint(b2) {
            None => None,
            Some((xorv, b3)) => {
                let ts = st.prev_ts + st.prev_delta + unzigzag(zdod);
                if i64::MIN <= ts <= i64::MAX && xorv <= u64::MAX {
                    Some(
                        (
                            DataPoint {
                                timestamp: ts as i64,
                                value: ((xorv as u64) ^ st.prev_val) as u64,
                            },
                            b3,
                        ),
                    )
                } else {
                    None
                }
            },
        },
    }
}

pub open spec fn dec_samples(b: Seq<u8>, st: CodecState, n: nat) -> Option<(Seq<DataPoint>, Seq<u8>)>
    decreases n,
{
    if n == 0 {
        Some((Seq::empty(), b))
    } else {
        match dec_sample(b, st) {
            None => None,
            Some((p, b2)) => match dec_samples(b2, next_state(st, p), (n - 1) as nat) {
                None => None,
                Some((ps, b3)) => Some((seq![p] + ps, b3)),
            },
        }
    }
}

/// Parse a whole series block; the stream must hold exactly one block.
pub open spec fn dec_points(b: Seq<u8>) -> Option<Seq<DataPoint>> {
    match dec_uvarint(b) {
        None => None,
        Some((n, b2)) => match dec_samples(b2, initial_state(), n as nat) {
            None => None,
            Some((ps, b3)) => if b3.len() == 0 && n <= usize::MAX {
                Some(ps)
            } else {
                None
            },
        },
    }
}

/// One encode-decode step is the identity on the sample.
proof fn lemma_sample_round_trip(st: CodecState, p: DataPoint, rest: Seq<u8>)
    requires
        -0x1_0000_0000_0000_0000 <= st.prev_delta <= 0x1_0000_0000_0000_0000,
    ensures
        dec_sample(enc_sample(st, p) + rest, st) == Some((p, rest)),
{
    let dod = (p.timestamp - st.prev_ts) - st.prev_delta;
    let zd = zigzag(dod);
    let xv = (p.value ^ st.prev_val) as u128;
    assert(enc_sample(st, p) + rest =~= enc_uvarint(zd) + (enc_uvarint(xv) + rest));
    lemma_uvarint_round_trip(zd, enc_uvarint(xv) + rest);
    lemma_uvarint_round_trip(xv, rest);
    lemma_zigzag_round_trip(dod);
    assert(st.prev_ts + st.prev_delta + unzigzag(zd) == p.timestamp);
    let pv = p.value;
    let sv = st.prev_val;
    let x = (pv ^ sv) as u64;
    assert((x ^ sv) == pv) by (bit_vector)
        requires
            x == pv ^ sv,
    ;
    assert(xv as u64 == x);
}

/// The delta the chain carries always fits in 65 bits.
pub open spec fn state_bounded(st: CodecState) -> bool {
    -0x1_0000_0000_0000_0000 <= st.prev_delta <= 0x1_0000_0000_0000_0000
}

/// Decoding a sample chain undoes encoding it.
proof fn lemma_samples_round_trip(st: CodecState, s: Seq<DataPoint>, rest: Seq<u8>)
    requires
        state_bounded(st),
    ensures
        dec_samples(enc_samples(st, s) + rest, st, s.len()) == Some((s, rest)),
    decreases s.len(),
{
    if s.len() == 0 {
        assert(enc_samples(st, s) + rest =~= rest);
    } else {
        let st2 = next_state(st, s[0]);
        assert(state_bounded(st2));
        lemma_samples_round_trip(st2, s.skip(1), rest);
        assert(enc_samples(st, s) + rest =~= enc_sample(st, s[0]) + (enc_samples(st2, s.skip(1))
            + rest));
        lemma_sample_round_trip(st, s[0], enc_samples(st2, s.skip(1)) + rest);
        assert(seq![s[0]] + s.skip(1) =~= s);
    }
}

/// The encoding bijection: decoding an encoded series yields exactly
/// that series, for every finite series.
pub proof fn lemma_codec_round_trip(s: Seq<DataPoint>)
    requires
        s.len() <= usize::MAX,
    ensures
        dec_points(enc_points(s)) == Some(s),
{
    lemma_uvarint_round_trip(s.len() as u128, enc_samples(initial_state(), s));
    lemma_samples_round_trip(initial_state(), s, Seq::empty());
    assert(enc_samples(initial_state(), s) + Seq::<u8>::empty() =~= enc_samples(
        initial_state(),
        s,
    ));
}

/// Append the base-128 encoding of a value to the output.
pub fn push_uvarint(out: &mut Vec<u8>, v: u128)
    ensures
        final(out)@ == old(out)@ + enc_uvarint(v),
{
    let mut x: u128 = v;
    while x >= 128
        invariant
            old(out)@ + enc_uvarint(v) == out@ + enc_uvarint(x),
        decreases x,
    {
        out.push(((x % 128) + 128) as u8);
        proof {
            assert(out@ + enc_uvarint(x / 128) =~= out@.drop_last() + (seq![(((x % 128) + 128)
                as u8)] + enc_uvarint(x / 128)));
        }
        x = x / 128;
    }
    out.push(x as u8);
    proof {
        assert(out@ =~= out@.drop_last() + enc_uvarint(x));
    }
}

/// Parse one base-128 value starting at `pos`; the new position on
/// success.
pub fn read_uvarint(b: &Vec<u8>, pos: usize) -> (r: Option<(u128, usize)>)
    requires
        pos <= b@.len(),
    ensures
        match r {
            Some(vp) => vp.1 <= b@.len() && pos < vp.1 && dec_uvarint(b@.skip(pos as int))
                == Some((vp.0, b@.skip(vp.1 as int))),
            None => dec_uvarint(b@.skip(pos as int)) is None,
        },
    decreases b@.len() - pos,
{
    if pos >= b.len() {
        return None;
    }
    let byte = b[pos];
    proof {
        let t = b@.skip(pos as int);
        assert(t[0] == b@[pos as int]);
        assert(t.skip(1) =~= b@.skip(pos as int + 1));
    }
    if byte < 128 {
        return Some((byte as u128, pos + 1));
    }
    match read_uvarint(b, pos + 1) {
        None => None,
        Some((hi, p2)) => {
            let lo = (byte - 128) as u128;
            if hi <= (u128::MAX - lo) / 128 {
                Some((lo + 128 * hi, p2))
            } else {
                None
            }
        },
    }
}

/// The zigzag map on a bounded signed value.
fn zigzag_exec(t: i128) -> (z: u128)
    requires
        -0x8000_0000_0000_0000_0000_0000_0000 <= t <= 0x8000_0000_0000_0000_0000_0000_0000,
    ensures
        z == zigzag(t as int),
{
    if t >= 0 {
        (t as u128) * 2
    } else {
        let m = (-t) as u128;
        m * 2 - 1
    }
}

/// The inverse zigzag map on a bounded word.
pub fn unzigzag_exec(z: u128) -> (r: i128)
    requires
        z < 0x1_0000_0000_0000_0000_0000,
    ensures
        r == unzigzag(z),
{
    if z % 2 == 0 {
        (z / 2) as i128
    } else {
        -(((z - 1) / 2) as i128) - 1
    }
}

/// Encode a series of samples as one block.
pub fn encode_points(points: &Vec<DataPoint>) -> (r: Vec<u8>)
    ensures
        r@ == enc_points(points@),
{
    let mut out: Vec<u8> = Vec::new();
    push_uvarint(&mut out, points.len() as u128);
    let mut prev_ts: i64 = 0;
    let mut prev_delta: i128 = 0;
    let mut prev_val: u64 = 0;
    let ghost mut st = initial_state();
    let mut i: usize = 0;
    proof {
        assert(points@.skip(0) =~= points@);
        assert(out@ + enc_samples(st, points@) =~= enc_uvarint(points@.len() as u128)
            + enc_samples(initial_state(), points@));
    }
    while i < points.len()
        invariant
            i <= points@.len(),
            prev_ts == st.prev_ts,
            prev_delta == st.prev_delta,
            prev_val == st.prev_val,
            state_bounded(st),
            enc_points(points@) == out@ + enc_samples(st, points@.skip(i as int)),
        decreases points@.len() - i,
    {
        let p = points[i];
        proof {
            let t = points@.skip(i as int);
            assert(t[0] == points@[i as int]);
            assert(t.skip(1) =~= points@.skip(i as int + 1));
        }
        let dod: i128 = (p.timestamp as i128 - prev_ts as i128) - prev_delta;
        let zd = zigzag_exec(dod);
        let ghost out_before = out@;
        push_uvarint(&mut out, zd);
        push_uvarint(&mut out, (p.value ^ prev_val) as u128);
        proof {
            assert(out@ =~= out_before + enc_sample(st, p));
            assert(out_before + (enc_sample(st, p) + enc_samples(
                next_state(st, p),
                points@.skip(i as int + 1),
            )) =~= (out_before + enc_sample(st, p)) + enc_samples(
                next_state(st, p),
                points@.skip(i as int + 1),
            ));
            st = next_state(st, p);
        }
        prev_delta = p.timestamp as i128 - prev_ts as i128;
        prev_ts = p.timestamp;
        prev_val = p.value;
        i = i + 1;
    }
    proof {
        assert(points@.skip(points@.len() as int) =~= Seq::<DataPoint>::empty());
        assert(out@ + Seq::<u8>::empty() =~= out@);
    }
    out
}

/// Decode one block.  `None` when the stream is not exactly one
/// well-formed block.
pub fn decode_points(b: &Vec<u8>) -> (r: Option<Vec<DataPoint>>)
    ensures
        match r {
            Some(v) => dec_points(b@) == Some(v@),
            None => dec_points(b@) is None,
        },
{
    let first = read_uvarint(b, 0);
    proof {
        assert(b@.skip(0) =~= b@);
    }
    let (n, mut pos) = match first {
        None => {
            return None;
        },
        Some(vp) => vp,
    };
    if n > usize::MAX as u128 {
        return None;
    }
    let count = n as usize;
    let mut acc: Vec<DataPoint> = Vec::new();
    let mut prev_ts: i64 = 0;
    let mut prev_delta: i128 = 0;
    let mut prev_val: u64 = 0;
    let ghost mut st = initial_state();
    let mut i: usize = 0;
    proof {
        let inner = dec_samples(b@.skip(pos as int), st, count as nat);
        if inner is Some {
            let pr = inner->Some_0;
            assert(Seq::<DataPoint>::empty() + pr.0 =~= pr.0);
        }
    }
    while i < count
        invariant
            i <= count,
            pos <= b@.len(),
            prev_ts == st.prev_ts,
            prev_delta == st.prev_delta,
            prev_val == st.prev_val,
            state_bounded(st),
            dec_points(b@) == (match dec_samples(b@.skip(pos as int), st, (count - i) as nat) {
                None => None::<Seq<DataPoint>>,
                Some(pr) => if pr.1.len() == 0 {
                    Some(acc@ + pr.0)
                } else {
                    None
                },
            }),
        decreases count - i,
    {
        let ghost n_rem = (count - i) as nat;
        let zdr = read_uvarint(b, pos);
        let (zd, pos2) = match zdr {
            None => {
                proof {
                    assert(dec_sample(b@.skip(pos as int), st) is None);
                    assert(dec_samples(b@.skip(pos as int), st, n_rem) is None);
                }
                return None;
            },
            Some(vp) => vp,
        };
        let xr = read_uvarint(b, pos2);
        let (xv, pos3) = match xr {
            None => {
                proof {
                    assert(dec_sample(b@.skip(pos as int), st) is None);
                    assert(dec_samples(b@.skip(pos as int), st, n_rem) is None);
                }
                return None;
            },
            Some(vp) => vp,
        };
        if zd >= 0x1000_0000_0000_0000_0000 {
            proof {
                lemma_unzigzag_large(zd, st);
                assert(dec_sample(b@.skip(pos as int), st) is None);
                assert(dec_samples(b@.skip(pos as int), st, n_rem) is None);
            }
            return None;
        }
        let uz = unzigzag_exec(zd);
        let ts_wide: i128 = prev_ts as i128 + prev_delta + uz;
        if ts_wide < i64::MIN as i128 || ts_wide > i64::MAX as i128 {
            proof {
                assert(dec_sample(b@.skip(pos as int), st) is None);
                assert(dec_samples(b@.skip(pos as int), st, n_rem) is None);
            }
            return None;
        }
        if xv > u64::MAX as u128 {
            proof {
                assert(dec_sample(b@.skip(pos as int), st) is None);
                assert(dec_samples(b@.skip(pos as int), st, n_rem) is None);
            }
            return None;
        }
        let p = DataPoint { timestamp: ts_wide as i64, value: (xv as u64) ^ prev_val };
        proof {
            assert(dec_sample(b@.skip(pos as int), st) == Some((p, b@.skip(pos3 as int))));
            let inner = dec_samples(b@.skip(pos3 as int), next_state(st, p), (n_rem - 1) as nat);
            if inner is Some {
                let pr2 = inner->Some_0;
                assert(dec_samples(b@.skip(pos as int), st, n_rem) == Some(
                    (seq![p] + pr2.0, pr2.1),
                ));
                assert(acc@ + (seq![p] + pr2.0) =~= (acc@ + seq![p]) + pr2.0);
                assert(acc@.push(p) =~= acc@ + seq![p]);
            } else {
                assert(dec_samples(b@.skip(pos as int), st, n_rem) is None);
            }
        }
        acc.push(p);
        proof {
            st = next_state(st, p);
        }
        prev_delta = p.timestamp as i128 - prev_ts as i128;
        prev_ts = p.timestamp;
        prev_val = p.value;
        pos = pos3;
        i = i + 1;
    }
    proof {
        assert(dec_samples(b@.skip(pos as int), st, 0) == Some(
            (Seq::<DataPoint>::empty(), b@.skip(pos as int)),
        ));
        assert(acc@ + Seq::<DataPoint>::empty() =~= acc@);
    }
    if pos == b.len() {
        proof {
            assert(b@.skip(pos as int).len() == 0);
        }
        Some(acc)
    } else {
        proof {
            assert(b@.skip(pos as int).len() > 0);
        }
        None
    }
}

/// A zigzag word at or above `2^76` decodes to a timestamp far outside
/// the 64-bit range, whatever the chain state.
proof fn lemma_unzigzag_large(zd: u128, st: CodecState)
    requires
        zd >= 0x1000_0000_0000_0000_0000,
        state_bounded(st),
    ensures
        !(i64::MIN <= st.prev_ts + st.prev_delta + unzigzag(zd) <= i64::MAX),
{
    let uz = unzigzag(zd);
    lemma_fundamental_div_mod(zd as int, 2);
    lemma_mod_bound(zd as int, 2);
    if zd % 2 == 0 {
        assert(uz == zd / 2);
        assert(uz >= 0x800_0000_0000_0000_0000) by {
            lemma_div_is_ordered(0x1000_0000_0000_0000_0000, zd as int, 2);
            lemma_div_multiples_vanish(0x800_0000_0000_0000_0000, 2);
        }
    } else {
        assert(uz == -(((zd as int) + 1) / 2));
        assert((zd as int + 1) / 2 >= 0x800_0000_0000_0000_0000) by {
            lemma_div_is_ordered(0x1000_0000_0000_0000_0000, zd as int + 1, 2);
            lemma_div_multiples_vanish(0x800_0000_0000_0000_0000, 2);
        }
    }
}

} // verus!
