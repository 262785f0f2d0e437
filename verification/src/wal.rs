use vstd::prelude::*;
use vstd::arithmetic::div_mod::{
    lemma_div_denominator, lemma_div_is_ordered, lemma_fundamental_div_mod, lemma_mod_bound,
};
use crate::codec::{
    dec_uvarint, enc_uvarint, lemma_uvarint_round_trip, push_uvarint, read_uvarint, unzigzag,
    zigzag,
};
use crate::errors::TsinkError;
use crate::storage::row_models;
use crate::types::{Label, Row, RowModel};

verus! {

/// The code points of a character sequence.
pub open spec fn codes_of(s: Seq<char>) -> Seq<u32> {
    s.map_values(|c: char| c as u32)
}

/// A row as its code points: what the write-ahead log stores.
pub struct RowCodes {
    pub metric: Seq<u32>,
    pub labels: Seq<(Seq<u32>, Seq<u32>)>,
    pub timestamp: i64,
    pub value: u64,
}

/// The image of a row under `codes_of`.
pub open spec fn row_codes(r: RowModel) -> RowCodes {
    RowCodes {
        metric: codes_of(r.metric),
        labels: r.labels.map_values(|l: (Seq<char>, Seq<char>)| (codes_of(l.0), codes_of(l.1))),
        timestamp: r.point.timestamp,
        value: r.point.value,
    }
}

pub open spec fn rows_codes(rs: Seq<RowModel>) -> Seq<RowCodes> {
    rs.map_values(|r: RowModel| row_codes(r))
}

/// Two character sequences with the same code points are the same.
pub proof fn lemma_codes_injective(a: Seq<char>, b: Seq<char>)
    requires
        codes_of(a) == codes_of(b),
    ensures
        a == b,
{
    assert(codes_of(a).len() == a.len());
    assert(codes_of(b).len() == b.len());
    assert(b.len() == a.len());
    assert forall|i: int| 0 <= i < a.len() implies a[i] == b[i] by {
        let ca = a[i];
        let cb = b[i];
        assert(0 <= i < b.len());
        assert(codes_of(a)[i] == ca as u32);
        assert(codes_of(b)[i] == b[i] as u32);
        vstd::utf8::char_u32_cast(ca, ca as u32);
        vstd::utf8::char_u32_cast(cb, cb as u32);
    }
    assert(a =~= b);
}

/// One string: its character count, then one varint code point per
/// character.
pub open spec fn enc_codes(s: Seq<u32>) -> Seq<u8>
    decreases s.len(),
{
    if s.len() == 0 {
        Seq::empty()
    } else {
        enc_uvarint(s[0] as u128) + enc_codes(s.skip(1))
    }
}

pub open spec fn enc_str(s: Seq<u32>) -> Seq<u8> {
    enc_uvarint(s.len() as u128) + enc_codes(s)
}

/// One record payload: metric, label count, each label's name and
/// value, the timestamp zigzagged, and the value bits.
pub open spec fn enc_labels(ls: Seq<(Seq<u32>, Seq<u32>)>) -> Seq<u8>
    decreases ls.len(),
{
    if ls.len() == 0 {
        Seq::empty()
    } else {
        enc_str(ls[0].0) + enc_str(ls[0].1) + enc_labels(ls.skip(1))
    }
}

pub open spec fn enc_record(r: RowCodes) -> Seq<u8> {
    enc_str(r.metric) + enc_uvarint(r.labels.len() as u128) + enc_labels(r.labels) + enc_uvarint(
        zigzag(r.timestamp as int),
    ) + enc_uvarint(r.value as u128)
}

/// The four-byte little-endian frame length.
pub open spec fn enc_len32(n: nat) -> Seq<u8> {
    seq![
        (n % 256) as u8,
        ((n / 256) % 256) as u8,
        ((n / 65536) % 256) as u8,
        ((n / 16777216) % 256) as u8,
    ]
}

pub open spec fn le32(b: Seq<u8>) -> nat
    recommends
        b.len() == 4,
{
    b[0] as nat + 256 * (b[1] as nat) + 65536 * (b[2] as nat) + 16777216 * (b[3] as nat)
}

pub proof fn lemma_len32_round_trip(n: nat)
    requires
        n < 0x1_0000_0000,
    ensures
        le32(enc_len32(n)) == n,
{
    lemma_fundamental_div_mod(n as int, 256);
    lemma_mod_bound(n as int, 256);
    lemma_fundamental_div_mod(n as int / 256, 256);
    lemma_mod_bound(n as int / 256, 256);
    lemma_fundamental_div_mod(n as int / 65536, 256);
    lemma_mod_bound(n as int / 65536, 256);
    lemma_div_denominator(n as int, 256, 256);
    lemma_div_denominator(n as int, 65536, 256);
    lemma_div_is_ordered(n as int, 0xFFFF_FFFF, 16777216);
    assert(n as int / 16777216 < 256);
    lemma_mod_bound(n as int / 16777216, 256);
    assert((n as int / 16777216) % 256 == n as int / 16777216) by {
        lemma_fundamental_div_mod(n as int / 16777216, 256);
        lemma_div_is_ordered(n as int / 16777216, 255, 256);
    }
}

/// One bit step of the reflected CRC-32 (polynomial `0xEDB88320`).
pub open spec fn crc_step_bit(x: u32) -> u32 {
    if x & 1 == 1 {
        (x >> 1u32) ^ 0xEDB8_8320u32
    } else {
        x >> 1u32
    }
}

pub open spec fn crc_bits(x: u32, n: nat) -> u32
    decreases n,
{
    if n == 0 {
        x
    } else {
        crc_bits(crc_step_bit(x), (n - 1) as nat)
    }
}

pub open spec fn crc_byte(x: u32, b: u8) -> u32 {
    crc_bits(x ^ (b as u32), 8)
}

pub open spec fn crc_accum(x: u32, s: Seq<u8>) -> u32
    decreases s.len(),
{
    if s.len() == 0 {
        x
    } else {
        crc_accum(crc_byte(x, s[0]), s.skip(1))
    }
}

/// The CRC-32 checksum of a byte sequence.
pub open spec fn crc32_of(s: Seq<u8>) -> u32 {
    crc_accum(0xFFFF_FFFFu32, s) ^ 0xFFFF_FFFFu32
}

/// Compute the CRC-32 checksum of a byte vector.
pub fn crc32_bytes(b: &Vec<u8>) -> (r: u32)
    ensures
        r == crc32_of(b@),
{
    let mut x: u32 = 0xFFFF_FFFF;
    let mut i: usize = 0;
    proof {
        assert(b@.skip(0) =~= b@);
    }
    while i < b.len()
        invariant
            i <= b@.len(),
            crc_accum(0xFFFF_FFFFu32, b@) == crc_accum(x, b@.skip(i as int)),
        decreases b@.len() - i,
    {
        proof {
            let t = b@.skip(i as int);
            assert(t[0] == b@[i as int]);
            assert(t.skip(1) =~= b@.skip(i as int + 1));
        }
        let mut y: u32 = x ^ (b[i] as u32);
        let mut j: usize = 0;
        while j < 8
            invariant
                j <= 8,
                crc_byte(x, b@[i as int]) == crc_bits(y, (8 - j) as nat),
            decreases 8 - j,
        {
            if y & 1 == 1 {
                y = (y >> 1u32) ^ 0xEDB8_8320;
            } else {
                y = y >> 1u32;
            }
            j = j + 1;
        }
        x = y;
        i = i + 1;
    }
    proof {
        assert(b@.skip(b@.len() as int) =~= Seq::<u8>::empty());
    }
    x ^ 0xFFFF_FFFF
}

/// A whole record with its frame: the payload length, the payload,
/// then the payload's CRC-32.
pub open spec fn enc_framed(r: RowCodes) -> Seq<u8> {
    enc_len32(enc_record(r).len()) + enc_record(r) + enc_len32(crc32_of(enc_record(r)) as nat)
}

/// Whether a record fits the four-byte frame.
pub open spec fn record_fits(r: RowCodes) -> bool {
    enc_record(r).len() < 0x1_0000_0000
}

pub open spec fn enc_rows(rs: Seq<RowCodes>) -> Seq<u8>
    decreases rs.len(),
{
    if rs.len() == 0 {
        Seq::empty()
    } else {
        enc_framed(rs[0]) + enc_rows(rs.skip(1))
    }
}

// ---- decoding ----

/// Parse `n` code points.  `None` is a malformed stream.
pub open spec fn dec_codes(b: Seq<u8>, n: nat) -> Option<(Seq<u32>, Seq<u8>)>
    decreases n,
{
    if n == 0 {
        Some((Seq::empty(), b))
    } else {
        match dec_uvarint(b) {
            None => None,
            Some((v, b2)) => if v <= 0x10FFFF && !(0xD800 <= v <= 0xDFFF) {
                match dec_codes(b2, (n - 1) as nat) {
                    None => None,
                    Some((cs, b3)) => Some((seq![v as u32] + cs, b3)),
                }
            } else {
                None
            },
        }
    }
}

pub open spec fn dec_str(b: Seq<u8>) -> Option<(Seq<u32>, Seq<u8>)> {
    match dec_uvarint(b) {
        None => None,
        Some((n, b2)) => if n <= usize::MAX {
            dec_codes(b2, n as nat)
        } else {
            None
        },
    }
}

pub open spec fn dec_labels(b: Seq<u8>, n: nat) -> Option<(Seq<(Seq<u32>, Seq<u32>)>, Seq<u8>)>
    decreases n,
{
    if n == 0 {
        Some((Seq::empty(), b))
    } else {
        match dec_str(b) {
            None => None,
            Some((name, b2)) => match dec_str(b2) {
                None => None,
                Some((value, b3)) => match dec_labels(b3, (n - 1) as nat) {
                    None => None,
                    Some((ls, b4)) => Some((seq![(name, value)] + ls, b4)),
                },
            },
        }
    }
}

/// Parse one record payload; the payload must be consumed exactly.
pub open spec fn dec_record(b: Seq<u8>) -> Option<RowCodes> {
    match dec_str(b) {
        None => None,
        Some((metric, b2)) => match dec_uvarint(b2) {
            None => None,
            Some((nl, b3)) => if nl <= usize::MAX {
                match dec_labels(b3, nl as nat) {
                    None => None,
                    Some((labels, b4)) => match dec_uvarint(b4) {
                        None => None,
                        Some((zts, b5)) => match dec_uvarint(b5) {
                            None => None,
                            Some((val, b6)) => {
                                let ts = unzigzag(zts);
                                if i64::MIN <= ts <= i64::MAX && val <= u64::MAX && b6.len() == 0 {
                                    Some(
                                        RowCodes {
                                            metric,
                                            labels,
                                            timestamp: ts as i64,
                                            value: val as u64,
                                        },
                                    )
                                } else {
                                    None
                                }
                            },
                        },
                    },
                }
            } else {
                None
            },
        },
    }
}

/// Parse a framed record stream.  A partial trailing frame is
/// tolerated silently; a checksum mismatch or malformed payload
/// mid-stream is `None` (corruption).
pub open spec fn dec_rows(b: Seq<u8>) -> Option<Seq<RowCodes>>
    decreases b.len(),
{
    if b.len() < 4 {
        Some(Seq::empty())
    } else {
        let n = le32(b.take(4));
        if b.len() - 4 < n + 4 {
            Some(Seq::empty())
        } else if le32(b.subrange(4 + n as int, 8 + n as int)) != crc32_of(
            b.subrange(4, 4 + n as int),
        ) {
            None
        } else {
            match dec_record(b.subrange(4, 4 + n as int)) {
                None => None,
                Some(r) => match dec_rows(b.skip(8 + n as int)) {
                    None => None,
                    Some(rs) => Some(seq![r] + rs),
                },
            }
        }
    }
}

// ---- round trip ----

proof fn lemma_codes_round_trip(s: Seq<u32>, rest: Seq<u8>)
    requires
        forall|i: int| 0 <= i < s.len() ==> (#[trigger] s[i]) <= 0x10FFFF && !(0xD800 <= s[i]
            <= 0xDFFF),
    ensures
        dec_codes(enc_codes(s) + rest, s.len()) == Some((s, rest)),
    decreases s.len(),
{
    if s.len() == 0 {
        assert(enc_codes(s) + rest =~= rest);
    } else {
        lemma_codes_round_trip(s.skip(1), rest);
        assert(enc_codes(s) + rest =~= enc_uvarint(s[0] as u128) + (enc_codes(s.skip(1)) + rest));
        lemma_uvarint_round_trip(s[0] as u128, enc_codes(s.skip(1)) + rest);
        assert(seq![s[0]] + s.skip(1) =~= s);
    }
}

/// Whether a sequence of code points denotes characters.
pub open spec fn codes_valid(s: Seq<u32>) -> bool {
    forall|i: int| 0 <= i < s.len() ==> (#[trigger] s[i]) <= 0x10FFFF && !(0xD800 <= s[i]
        <= 0xDFFF)
}

pub(crate) proof fn lemma_str_round_trip(s: Seq<u32>, rest: Seq<u8>)
    requires
        codes_valid(s),
        s.len() <= usize::MAX,
    ensures
        dec_str(enc_str(s) + rest) == Some((s, rest)),
{
    assert(enc_str(s) + rest =~= enc_uvarint(s.len() as u128) + (enc_codes(s) + rest));
    lemma_uvarint_round_trip(s.len() as u128, enc_codes(s) + rest);
    lemma_codes_round_trip(s, rest);
}

/// Whether every string of a stored row is a valid, bounded string.
pub open spec fn row_codes_valid(r: RowCodes) -> bool {
    &&& codes_valid(r.metric)
    &&& r.metric.len() <= usize::MAX
    &&& r.labels.len() <= usize::MAX
    &&& forall|i: int| 0 <= i < r.labels.len() ==> codes_valid(#[trigger] r.labels[i].0)
        && codes_valid(r.labels[i].1) && r.labels[i].0.len() <= usize::MAX && r.labels[i].1.len()
        <= usize::MAX
}

pub(crate) proof fn lemma_labels_round_trip(ls: Seq<(Seq<u32>, Seq<u32>)>, rest: Seq<u8>)
    requires
        forall|i: int| 0 <= i < ls.len() ==> codes_valid(#[trigger] ls[i].0) && codes_valid(
            ls[i].1,
        ) && ls[i].0.len() <= usize::MAX && ls[i].1.len() <= usize::MAX,
    ensures
        dec_labels(enc_labels(ls) + rest, ls.len()) == Some((ls, rest)),
    decreases ls.len(),
{
    if ls.len() == 0 {
        assert(enc_labels(ls) + rest =~= rest);
    } else {
        lemma_labels_round_trip(ls.skip(1), rest);
        assert(enc_labels(ls) + rest =~= enc_str(ls[0].0) + (enc_str(ls[0].1) + (enc_labels(
            ls.skip(1),
        ) + rest)));
        lemma_str_round_trip(ls[0].0, enc_str(ls[0].1) + (enc_labels(ls.skip(1)) + rest));
        lemma_str_round_trip(ls[0].1, enc_labels(ls.skip(1)) + rest);
        assert(seq![(ls[0].0, ls[0].1)] + ls.skip(1) =~= ls);
    }
}

proof fn lemma_record_round_trip(r: RowCodes)
    requires
        row_codes_valid(r),
    ensures
        dec_record(enc_record(r)) == Some(r),
{
    let tail3 = enc_uvarint(zigzag(r.timestamp as int)) + enc_uvarint(r.value as u128);
    let tail2 = enc_labels(r.labels) + tail3;
    let tail1 = enc_uvarint(r.labels.len() as u128) + tail2;
    assert(enc_record(r) =~= enc_str(r.metric) + tail1);
    lemma_str_round_trip(r.metric, tail1);
    lemma_uvarint_round_trip(r.labels.len() as u128, tail2);
    lemma_labels_round_trip(r.labels, tail3);
    lemma_uvarint_round_trip(
        zigzag(r.timestamp as int),
        enc_uvarint(r.value as u128) + Seq::empty(),
    );
    assert(enc_uvarint(zigzag(r.timestamp as int)) + enc_uvarint(r.value as u128) =~= enc_uvarint(
        zigzag(r.timestamp as int),
    ) + (enc_uvarint(r.value as u128) + Seq::<u8>::empty()));
    lemma_uvarint_round_trip(r.value as u128, Seq::empty());
    crate::codec::lemma_zigzag_round_trip(r.timestamp as int);
}

// ---- executable encoding ----

/// Relies on `char::from_u32`: it returns `Some` exactly for the code
/// points below `0x110000` that are not UTF-16 surrogates, and the
/// character it returns carries that code point.
#[verifier::external_body]
fn char_from_u32(v: u32) -> (r: Option<char>)
    ensures
        match r {
            Some(c) => c as u32 == v && v <= 0x10FFFF && !(0xD800 <= v <= 0xDFFF),
            None => !(v <= 0x10FFFF && !(0xD800 <= v <= 0xDFFF)),
        },
{
    char::from_u32(v)
}

/// Relies on `String::push`: it appends exactly the one character.
#[verifier::external_body]
fn string_push_char(s: &mut String, c: char)
    ensures
        final(s)@ == old(s)@.push(c),
{
    s.push(c);
}

/// Append the encoding of one string to the output.
pub(crate) fn push_str(out: &mut Vec<u8>, s: &str)
    ensures
        final(out)@ == old(out)@ + enc_str(codes_of(s@)),
{
    let ghost codes = codes_of(s@);
    proof {
        assert(codes.len() == s@.len());
    }
    let len: usize = s.unicode_len();
    push_uvarint(out, len as u128);
    let mut i: usize = 0;
    proof {
        assert(codes.skip(0) =~= codes);
        assert(out@ + enc_codes(codes) =~= old(out)@ + (enc_uvarint(codes.len() as u128)
            + enc_codes(codes)));
    }
    while i < len
        invariant
            i <= len,
            len == s@.len(),
            codes == codes_of(s@),
            old(out)@ + enc_str(codes) == out@ + enc_codes(codes.skip(i as int)),
        decreases len - i,
    {
        let c = s.get_char(i);
        proof {
            let t = codes.skip(i as int);
            assert(codes[i as int] == s@[i as int] as u32);
            assert(t[0] == codes[i as int]);
            assert(t.skip(1) =~= codes.skip(i as int + 1));
        }
        let ghost out_before = out@;
        push_uvarint(out, (c as u32) as u128);
        proof {
            assert(out@ + enc_codes(codes.skip(i as int + 1)) =~= out_before + (enc_uvarint(
                codes[i as int] as u128,
            ) + enc_codes(codes.skip(i as int + 1))));
        }
        i = i + 1;
    }
    proof {
        assert(codes.skip(len as int) =~= Seq::<u32>::empty());
        assert(out@ + Seq::<u8>::empty() =~= out@);
    }
}

/// Encode one row's record payload.
fn encode_record_bytes(row: &Row) -> (r: Vec<u8>)
    ensures
        r@ == enc_record(row_codes(row@)),
{
    let ghost rc = row_codes(row@);
    let mut out: Vec<u8> = Vec::new();
    push_str(&mut out, row.metric.as_str());
    push_uvarint(&mut out, row.labels.len() as u128);
    proof {
        assert(rc.labels.len() == row.labels@.len());
    }
    let mut i: usize = 0;
    proof {
        assert(rc.labels.skip(0) =~= rc.labels);
    }
    while i < row.labels.len()
        invariant
            i <= row.labels@.len(),
            rc == row_codes(row@),
            rc.labels.len() == row.labels@.len(),
            out@ + enc_labels(rc.labels.skip(i as int)) == enc_str(rc.metric) + enc_uvarint(
                rc.labels.len() as u128,
            ) + enc_labels(rc.labels),
        decreases row.labels@.len() - i,
    {
        let l = &row.labels[i];
        proof {
            let t = rc.labels.skip(i as int);
            assert(row@.labels[i as int] == row.labels@[i as int]@);
            assert(rc.labels[i as int] == (codes_of(row@.labels[i as int].0), codes_of(
                row@.labels[i as int].1,
            )));
            assert(t[0] == rc.labels[i as int]);
            assert(t.skip(1) =~= rc.labels.skip(i as int + 1));
        }
        let ghost out_before = out@;
        push_str(&mut out, l.name.as_str());
        push_str(&mut out, l.value.as_str());
        proof {
            assert(out@ + enc_labels(rc.labels.skip(i as int + 1)) =~= out_before + (enc_str(
                rc.labels[i as int].0,
            ) + (enc_str(rc.labels[i as int].1) + enc_labels(rc.labels.skip(i as int + 1)))));
        }
        i = i + 1;
    }
    proof {
        assert(rc.labels.skip(rc.labels.len() as int) =~= Seq::<(Seq<u32>, Seq<u32>)>::empty());
        assert(out@ + Seq::<u8>::empty() =~= out@);
    }
    let ts = row.point.timestamp;
    let z: u128 = if ts >= 0 {
        (ts as u128) * 2
    } else {
        let m = (-(ts as i128)) as u128;
        m * 2 - 1
    };
    proof {
        assert(z == zigzag(ts as int));
    }
    push_uvarint(&mut out, z);
    push_uvarint(&mut out, row.point.value as u128);
    proof {
        assert(out@ =~= enc_record(rc));
    }
    out
}

/// Append one frame: the payload's length, the payload, and its
/// checksum.
fn push_frame(out: &mut Vec<u8>, payload: &Vec<u8>)
    requires
        payload@.len() < 0x1_0000_0000,
    ensures
        final(out)@ == old(out)@ + enc_len32(payload@.len() as nat) + payload@ + enc_len32(
            crc32_of(payload@) as nat,
        ),
{
    let n = payload.len();
    let ghost out_before = out@;
    out.push((n % 256) as u8);
    out.push(((n / 256) % 256) as u8);
    out.push(((n / 65536) % 256) as u8);
    out.push(((n / 16777216) % 256) as u8);
    proof {
        assert(out@ =~= out_before + enc_len32(n as nat));
    }
    let mut j: usize = 0;
    while j < payload.len()
        invariant
            j <= payload@.len(),
            out@ == out_before + enc_len32(n as nat) + payload@.take(j as int),
        decreases payload@.len() - j,
    {
        out.push(payload[j]);
        proof {
            assert(payload@.take(j as int + 1) =~= payload@.take(j as int).push(
                payload@[j as int],
            ));
            assert(out@ =~= out_before + enc_len32(n as nat) + payload@.take(j as int + 1));
        }
        j = j + 1;
    }
    proof {
        assert(payload@.take(payload@.len() as int) =~= payload@);
    }
    let crc = crc32_bytes(payload);
    let c = crc as usize;
    let ghost out_mid = out@;
    out.push((c % 256) as u8);
    out.push(((c / 256) % 256) as u8);
    out.push(((c / 65536) % 256) as u8);
    out.push(((c / 16777216) % 256) as u8);
    proof {
        assert(out@ =~= out_mid + enc_len32(c as nat));
        assert(out@ =~= out_before + enc_len32(payload@.len() as nat) + payload@ + enc_len32(
            crc32_of(payload@) as nat,
        ));
    }
}

/// Encode a batch of rows as a framed record stream.  It fails, with
/// nothing encoded, exactly when some record is too large for its
/// four-byte frame.
pub fn encode_rows_bytes(rows: &Vec<Row>) -> (r: Result<Vec<u8>, TsinkError>)
    ensures
        match r {
            Ok(bytes) => bytes@ == enc_rows(rows_codes(row_models(rows@))) && forall|k: int|
                0 <= k < rows@.len() ==> record_fits(
                    #[trigger] rows_codes(row_models(rows@))[k],
                ),
            Err(e) => e == TsinkError::IoFailure && exists|k: int|
                0 <= k < rows@.len() && !record_fits(
                    #[trigger] rows_codes(row_models(rows@))[k],
                ),
        },
{
    let ghost rcs = rows_codes(row_models(rows@));
    let mut out: Vec<u8> = Vec::new();
    let mut i: usize = 0;
    proof {
        assert(rcs.skip(0) =~= rcs);
        assert(rcs.len() == rows@.len());
        assert(out@ + enc_rows(rcs) =~= enc_rows(rcs));
    }
    while i < rows.len()
        invariant
            i <= rows@.len(),
            rcs == rows_codes(row_models(rows@)),
            rcs.len() == rows@.len(),
            out@ + enc_rows(rcs.skip(i as int)) == enc_rows(rcs),
            forall|k: int| 0 <= k < i ==> record_fits(#[trigger] rcs[k]),
        decreases rows@.len() - i,
    {
        proof {
            let t = rcs.skip(i as int);
            assert(row_models(rows@)[i as int] == rows@[i as int]@);
            assert(rcs[i as int] == row_codes(rows@[i as int]@));
            assert(t[0] == rcs[i as int]);
            assert(t.skip(1) =~= rcs.skip(i as int + 1));
        }
        let payload = encode_record_bytes(&rows[i]);
        if payload.len() as u64 >= 0x1_0000_0000 {
            proof {
                assert(!record_fits(rcs[i as int]));
            }
            return Err(TsinkError::IoFailure);
        }
        let ghost out_before = out@;
        push_frame(&mut out, &payload);
        proof {
            assert(out@ =~= out_before + enc_framed(rcs[i as int]));
            assert(out@ + enc_rows(rcs.skip(i as int + 1)) =~= out_before + (enc_framed(
                rcs[i as int],
            ) + enc_rows(rcs.skip(i as int + 1))));
        }
        i = i + 1;
    }
    proof {
        assert(rcs.skip(rcs.len() as int) =~= Seq::<RowCodes>::empty());
        assert(out@ + Seq::<u8>::empty() =~= out@);
    }
    Ok(out)
}

// ---- executable decoding ----

/// Copy `b[start..end]` out.
fn copy_range(b: &Vec<u8>, start: usize, end: usize) -> (r: Vec<u8>)
    requires
        start <= end <= b@.len(),
    ensures
        r@ == b@.subrange(start as int, end as int),
{
    let mut r: Vec<u8> = Vec::new();
    let mut i: usize = start;
    proof {
        assert(r@ =~= b@.subrange(start as int, start as int));
    }
    while i < end
        invariant
            start <= i <= end <= b@.len(),
            r@ == b@.subrange(start as int, i as int),
        decreases end - i,
    {
        r.push(b[i]);
        proof {
            assert(r@ =~= b@.subrange(start as int, i as int + 1));
        }
        i = i + 1;
    }
    r
}

/// Parse one string starting at `pos` in the frame.
pub(crate) fn read_str(frame: &Vec<u8>, pos: usize) -> (r: Option<(String, usize)>)
    requires
        pos <= frame@.len(),
    ensures
        match r {
            Some(sp) => pos < sp.1 <= frame@.len() && dec_str(frame@.skip(pos as int)) == Some(
                (codes_of(sp.0@), frame@.skip(sp.1 as int)),
            ),
            None => dec_str(frame@.skip(pos as int)) is None,
        },
{
    let first = read_uvarint(frame, pos);
    let (n, mut p) = match first {
        None => {
            return None;
        },
        Some(vp) => vp,
    };
    if n > usize::MAX as u128 {
        return None;
    }
    let count = n as usize;
    let mut s = String::new();
    let mut i: usize = 0;
    proof {
        let inner = dec_codes(frame@.skip(p as int), count as nat);
        if inner is Some {
            let pr = inner->Some_0;
            assert(Seq::<u32>::empty() + pr.0 =~= pr.0);
            assert(codes_of(s@) =~= Seq::<u32>::empty());
        }
    }
    while i < count
        invariant
            i <= count,
            p <= frame@.len(),
            pos < p,
            dec_str(frame@.skip(pos as int)) == (match dec_codes(
                frame@.skip(p as int),
                (count - i) as nat,
            ) {
                None => None::<(Seq<u32>, Seq<u8>)>,
                Some(pr) => Some((codes_of(s@) + pr.0, pr.1)),
            }),
        decreases count - i,
    {
        let ghost n_rem = (count - i) as nat;
        let vr = read_uvarint(frame, p);
        let (v, p2) = match vr {
            None => {
                proof {
                    assert(dec_codes(frame@.skip(p as int), n_rem) is None);
                }
                return None;
            },
            Some(vp) => vp,
        };
        if v > 0x10FFFF {
            proof {
                assert(dec_codes(frame@.skip(p as int), n_rem) is None);
            }
            return None;
        }
        let c = match char_from_u32(v as u32) {
            None => {
                proof {
                    assert(dec_codes(frame@.skip(p as int), n_rem) is None);
                }
                return None;
            },
            Some(c) => c,
        };
        proof {
            let inner = dec_codes(frame@.skip(p2 as int), (n_rem - 1) as nat);
            if inner is Some {
                let pr2 = inner->Some_0;
                assert(dec_codes(frame@.skip(p as int), n_rem) == Some(
                    (seq![v as u32] + pr2.0, pr2.1),
                ));
                assert(codes_of(s@) + (seq![v as u32] + pr2.0) =~= (codes_of(s@) + seq![
                    v as u32,
                ]) + pr2.0);
                assert(codes_of(s@.push(c)) =~= codes_of(s@) + seq![v as u32]);
            } else {
                assert(dec_codes(frame@.skip(p as int), n_rem) is None);
            }
        }
        string_push_char(&mut s, c);
        p = p2;
        i = i + 1;
    }
    proof {
        assert(dec_codes(frame@.skip(p as int), 0) == Some(
            (Seq::<u32>::empty(), frame@.skip(p as int)),
        ));
        assert(codes_of(s@) + Seq::<u32>::empty() =~= codes_of(s@));
    }
    Some((s, p))
}

/// A zigzag word at or above `2^65` is outside the 64-bit range.
proof fn lemma_unzigzag_ts_large(z: u128)
    requires
        z >= 0x2_0000_0000_0000_0000,
    ensures
        !(i64::MIN <= unzigzag(z) <= i64::MAX),
{
    vstd::arithmetic::div_mod::lemma_fundamental_div_mod(z as int, 2);
    vstd::arithmetic::div_mod::lemma_mod_bound(z as int, 2);
    if z % 2 == 0 {
        assert(unzigzag(z) == z / 2);
        assert(z / 2 >= 0x1_0000_0000_0000_0000) by {
            lemma_div_is_ordered(0x2_0000_0000_0000_0000, z as int, 2);
            vstd::arithmetic::div_mod::lemma_div_multiples_vanish(0x1_0000_0000_0000_0000, 2);
        }
    } else {
        assert(unzigzag(z) == -(((z as int) + 1) / 2));
        assert((z as int + 1) / 2 >= 0x1_0000_0000_0000_0000) by {
            lemma_div_is_ordered(0x2_0000_0000_0000_0000, z as int + 1, 2);
            vstd::arithmetic::div_mod::lemma_div_multiples_vanish(0x1_0000_0000_0000_0000, 2);
        }
    }
}

/// Parse one record payload; the whole frame must be consumed.
fn parse_record(frame: &Vec<u8>) -> (r: Option<Row>)
    ensures
        match r {
            Some(row) => dec_record(frame@) == Some(row_codes(row@)),
            None => dec_record(frame@) is None,
        },
{
    proof {
        assert(frame@.skip(0) =~= frame@);
    }
    let (metric, p1) = match read_str(frame, 0) {
        None => {
            return None;
        },
        Some(sp) => sp,
    };
    let (nl, mut p) = match read_uvarint(frame, p1) {
        None => {
            return None;
        },
        Some(vp) => vp,
    };
    if nl > usize::MAX as u128 {
        return None;
    }
    let count = nl as usize;
    let ghost p_start = p as int;
    let mut labels: Vec<Label> = Vec::new();
    let mut i: usize = 0;
    proof {
        let inner = dec_labels(frame@.skip(p as int), count as nat);
        if inner is Some {
            let pr = inner->Some_0;
            assert(label_codes_of(labels@) + pr.0 =~= pr.0);
        }
    }
    while i < count
        invariant
            i <= count,
            p <= frame@.len(),
            p1 <= frame@.len(),
            dec_str(frame@) == Some((codes_of(metric@), frame@.skip(p1 as int))),
            dec_uvarint(frame@.skip(p1 as int)) == Some((nl, frame@.skip(p_start))),
            nl == count as u128,
            dec_labels(frame@.skip(p_start), count as nat) == (match dec_labels(
                frame@.skip(p as int),
                (count - i) as nat,
            ) {
                None => None::<(Seq<(Seq<u32>, Seq<u32>)>, Seq<u8>)>,
                Some(pr) => Some((label_codes_of(labels@) + pr.0, pr.1)),
            }),
        decreases count - i,
    {
        let ghost n_rem = (count - i) as nat;
        let (name, pn) = match read_str(frame, p) {
            None => {
                proof {
                    assert(dec_labels(frame@.skip(p as int), n_rem) is None);
                    assert(dec_labels(frame@.skip(p_start), count as nat) is None);
                    assert(dec_record(frame@) is None);
                }
                return None;
            },
            Some(sp) => sp,
        };
        let (value, pv) = match read_str(frame, pn) {
            None => {
                proof {
                    assert(dec_labels(frame@.skip(p as int), n_rem) is None);
                    assert(dec_labels(frame@.skip(p_start), count as nat) is None);
                    assert(dec_record(frame@) is None);
                }
                return None;
            },
            Some(sp) => sp,
        };
        let l = Label { name, value };
        proof {
            let inner = dec_labels(frame@.skip(pv as int), (n_rem - 1) as nat);
            if inner is Some {
                let pr2 = inner->Some_0;
                assert(dec_labels(frame@.skip(p as int), n_rem) == Some(
                    (seq![(codes_of(l.name@), codes_of(l.value@))] + pr2.0, pr2.1),
                ));
                assert(label_codes_of(labels@) + (seq![(codes_of(l.name@), codes_of(l.value@))]
                    + pr2.0) =~= (label_codes_of(labels@) + seq![
                    (codes_of(l.name@), codes_of(l.value@)),
                ]) + pr2.0);
                assert(label_codes_of(labels@.push(l)) =~= label_codes_of(labels@) + seq![
                    (codes_of(l.name@), codes_of(l.value@)),
                ]);
            } else {
                assert(dec_labels(frame@.skip(p as int), n_rem) is None);
            }
        }
        labels.push(l);
        p = pv;
        i = i + 1;
    }
    proof {
        assert(dec_labels(frame@.skip(p as int), 0) == Some(
            (Seq::<(Seq<u32>, Seq<u32>)>::empty(), frame@.skip(p as int)),
        ));
        assert(label_codes_of(labels@) + Seq::<(Seq<u32>, Seq<u32>)>::empty() =~= label_codes_of(
            labels@,
        ));
    }
    let (zts, p2) = match read_uvarint(frame, p) {
        None => {
            return None;
        },
        Some(vp) => vp,
    };
    let (val, p3) = match read_uvarint(frame, p2) {
        None => {
            return None;
        },
        Some(vp) => vp,
    };
    if zts >= 0x2_0000_0000_0000_0000 {
        proof {
            lemma_unzigzag_ts_large(zts);
        }
        return None;
    }
    let uz = crate::codec::unzigzag_exec(zts);
    if uz < i64::MIN as i128 || uz > i64::MAX as i128 {
        return None;
    }
    if val > u64::MAX as u128 {
        return None;
    }
    if p3 != frame.len() {
        proof {
            assert(frame@.skip(p3 as int).len() > 0);
        }
        return None;
    }
    let row = Row {
        metric,
        labels,
        point: crate::types::DataPoint { timestamp: uz as i64, value: val as u64 },
    };
    proof {
        assert(frame@.skip(p3 as int).len() == 0);
        assert(row_codes(row@).metric =~= codes_of(row.metric@));
        assert(row_codes(row@).labels =~= label_codes_of(labels@));
        assert(dec_record(frame@) == Some(row_codes(row@)));
    }
    Some(row)
}

/// The label codes of a label vector.
pub open spec fn label_codes_of(ls: Seq<Label>) -> Seq<(Seq<u32>, Seq<u32>)> {
    ls.map_values(|l: Label| (codes_of(l@.0), codes_of(l@.1)))
}


/// What reading one frame yields: a tolerated partial trailing
/// frame, a corrupt frame, or one row and the next position.
pub enum FrameRead {
    Partial,
    Bad,
    Done(Row, usize),
}

/// Read one framed record at `pos`: its length, payload and checksum.
#[verifier::rlimit(100)]
#[verifier::spinoff_prover]
fn read_frame(b: &Vec<u8>, pos: usize) -> (r: FrameRead)
    requires
        pos <= b@.len(),
    ensures
        match r {
            FrameRead::Partial => dec_rows(b@.skip(pos as int)) == Some(Seq::<RowCodes>::empty()),
            FrameRead::Bad => dec_rows(b@.skip(pos as int)) is None,
            FrameRead::Done(row, p2) => pos < p2 <= b@.len() && dec_rows(b@.skip(pos as int)) == (
            match dec_rows(b@.skip(p2 as int)) {
                None => None::<Seq<RowCodes>>,
                Some(rs) => Some(seq![row_codes(row@)] + rs),
            }),
        },
{
    if b.len() - pos < 4 {
        return FrameRead::Partial;
    }
    let ghost tail = b@.skip(pos as int);
    let n_wide: u64 = b[pos] as u64 + 256 * (b[pos + 1] as u64) + 65536 * (b[pos + 2] as u64)
        + 16777216 * (b[pos + 3] as u64);
    proof {
        assert(tail.take(4) =~= seq![
            b@[pos as int],
            b@[pos as int + 1],
            b@[pos as int + 2],
            b@[pos as int + 3],
        ]);
        assert(le32(tail.take(4)) == n_wide as nat);
    }
    let remaining: u64 = (b.len() - pos - 4) as u64;
    if remaining < n_wide + 4 {
        proof {
            assert(tail.len() - 4 < le32(tail.take(4)) + 4);
        }
        return FrameRead::Partial;
    }
    let n = n_wide as usize;
    let frame = copy_range(b, pos + 4, pos + 4 + n);
    proof {
        assert(frame@ =~= tail.subrange(4, 4 + n as int));
    }
    let stored_crc: u64 = b[pos + 4 + n] as u64 + 256 * (b[pos + 5 + n] as u64) + 65536 * (
    b[pos + 6 + n] as u64) + 16777216 * (b[pos + 7 + n] as u64);
    proof {
        assert(tail.subrange(4 + n as int, 8 + n as int) =~= seq![
            b@[pos as int + 4 + n as int],
            b@[pos as int + 5 + n as int],
            b@[pos as int + 6 + n as int],
            b@[pos as int + 7 + n as int],
        ]);
        assert(le32(tail.subrange(4 + n as int, 8 + n as int)) == stored_crc as nat);
    }
    let crc = crc32_bytes(&frame);
    if stored_crc != crc as u64 {
        proof {
            assert(le32(tail.subrange(4 + n as int, 8 + n as int)) != crc32_of(
                tail.subrange(4, 4 + n as int),
            ) as nat);
            assert(dec_rows(tail) is None);
        }
        return FrameRead::Bad;
    }
    let row = match parse_record(&frame) {
        None => {
            proof {
                assert(dec_rows(tail) is None);
            }
            return FrameRead::Bad;
        },
        Some(row) => row,
    };
    proof {
        assert(tail.skip(8 + n as int) =~= b@.skip(pos as int + 8 + n as int));
    }
    FrameRead::Done(row, pos + 8 + n)
}

/// Decode a framed record stream: every whole frame in order; a
/// partial trailing frame is dropped silently; a checksum mismatch or
/// malformed payload is `CorruptWal`.
pub fn decode_rows_bytes(b: &Vec<u8>) -> (r: Result<Vec<Row>, TsinkError>)
    ensures
        match r {
            Ok(v) => dec_rows(b@) == Some(rows_codes(row_models(v@))),
            Err(e) => e == TsinkError::CorruptWal && dec_rows(b@) is None,
        },
{
    let mut acc: Vec<Row> = Vec::new();
    let mut pos: usize = 0;
    proof {
        assert(b@.skip(0) =~= b@);
        let inner = dec_rows(b@.skip(pos as int));
        if inner is Some {
            assert(rows_codes(row_models(acc@)) + inner->Some_0 =~= inner->Some_0);
        }
    }
    loop
        invariant
            pos <= b@.len(),
            dec_rows(b@) == (match dec_rows(b@.skip(pos as int)) {
                None => None::<Seq<RowCodes>>,
                Some(rs) => Some(rows_codes(row_models(acc@)) + rs),
            }),
        decreases b@.len() - pos,
    {
        match read_frame(b, pos) {
            FrameRead::Partial => {
                proof {
                    assert(rows_codes(row_models(acc@)) + Seq::<RowCodes>::empty() =~= rows_codes(
                        row_models(acc@),
                    ));
                }
                return Ok(acc);
            },
            FrameRead::Bad => {
                return Err(TsinkError::CorruptWal);
            },
            FrameRead::Done(row, p2) => {
                proof {
                    let inner = dec_rows(b@.skip(p2 as int));
                    if inner is Some {
                        let rs = inner->Some_0;
                        assert(rows_codes(row_models(acc@)) + (seq![row_codes(row@)] + rs) =~= (
                        rows_codes(row_models(acc@)) + seq![row_codes(row@)]) + rs);
                        assert(rows_codes(row_models(acc@.push(row))) =~= rows_codes(
                            row_models(acc@),
                        ) + seq![row_codes(row@)]);
                    }
                }
                acc.push(row);
                pos = p2;
            },
        }
    }
}

/// The write-ahead log: numbered segments of framed records, oldest
/// first; the last segment is the active one.
pub struct Wal {
    pub segments: Vec<(u64, Vec<u8>)>,
    pub next_seq: u64,
}

/// All logged bytes, in segment order.
pub open spec fn wal_bytes(segs: Seq<(u64, Vec<u8>)>) -> Seq<u8>
    decreases segs.len(),
{
    if segs.len() == 0 {
        Seq::empty()
    } else {
        segs[0].1@ + wal_bytes(segs.skip(1))
    }
}

proof fn lemma_wal_bytes_push(segs: Seq<(u64, Vec<u8>)>, s: (u64, Vec<u8>))
    ensures
        wal_bytes(segs.push(s)) == wal_bytes(segs) + s.1@,
    decreases segs.len(),
{
    let t = segs.push(s);
    if segs.len() == 0 {
        assert(t[0] == s);
        assert(t.skip(1) =~= Seq::<(u64, Vec<u8>)>::empty());
        assert(wal_bytes(t.skip(1)) == Seq::<u8>::empty());
        assert(wal_bytes(segs) == Seq::<u8>::empty());
        assert(wal_bytes(t) =~= wal_bytes(segs) + s.1@);
    } else {
        lemma_wal_bytes_push(segs.skip(1), s);
        assert(t[0] == segs[0]);
        assert(t.skip(1) =~= segs.skip(1).push(s));
        assert(wal_bytes(t) =~= wal_bytes(segs) + s.1@);
    }
}

impl Wal {
    /// Segment numbers strictly ascend and stay below the next number.
    pub open spec fn wf(&self) -> bool {
        &&& forall|i: int, j: int| 0 <= i < j < self.segments@.len()
            ==> self.segments@[i].0 < self.segments@[j].0
        &&& forall|i: int| 0 <= i < self.segments@.len() ==> (#[trigger] self.segments@[i]).0
            < self.next_seq
    }

    pub fn new() -> (r: Wal)
        ensures
            r.wf(),
            r.segments@.len() == 1,
            wal_bytes(r.segments@) == Seq::<u8>::empty(),
    {
        let mut segments: Vec<(u64, Vec<u8>)> = Vec::new();
        segments.push((1, Vec::new()));
        proof {
            assert(segments@.skip(1) =~= Seq::<(u64, Vec<u8>)>::empty());
            assert(wal_bytes(segments@.skip(1)) == Seq::<u8>::empty());
            assert(wal_bytes(segments@) =~= Seq::<u8>::empty());
        }
        Wal { segments, next_seq: 2 }
    }

    /// Serialize a batch into the active segment.  Nothing is written
    /// on a failure.
    pub fn append_rows(&mut self, rows: &Vec<Row>) -> (r: Result<(), TsinkError>)
        requires
            old(self).wf(),
            old(self).segments@.len() > 0,
        ensures
            final(self).wf(),
            final(self).segments@.len() == old(self).segments@.len(),
            match r {
                Ok(()) => wal_bytes(final(self).segments@) == wal_bytes(old(self).segments@)
                    + enc_rows(rows_codes(row_models(rows@))),
                Err(e) => e == TsinkError::IoFailure && final(self).segments@ == old(
                    self,
                ).segments@ && exists|k: int|
                    0 <= k < rows@.len() && !record_fits(
                        #[trigger] rows_codes(row_models(rows@))[k],
                    ),
            },
    {
        let mut bytes = match encode_rows_bytes(rows) {
            Err(_) => {
                return Err(TsinkError::IoFailure);
            },
            Ok(bytes) => bytes,
        };
        let ghost encb = bytes@;
        let ghost segs0 = self.segments@;
        let last = self.segments.len() - 1;
        let (num, mut seg) = self.segments.remove(last);
        let ghost seg0 = seg@;
        seg.append(&mut bytes);
        self.segments.insert(last, (num, seg));
        proof {
            assert(self.segments@ =~= segs0.update(last as int, (num, seg)));
            lemma_wal_bytes_update_last(segs0, (num, seg));
            assert(seg@ =~= segs0.last().1@ + encb);
            assert(wal_bytes(segs0.take(last as int)) + (segs0.last().1@ + encb) =~= (wal_bytes(
                segs0.take(last as int),
            ) + segs0.last().1@) + encb);
            assert forall|i: int| 0 <= i < self.segments@.len() implies (
            #[trigger] self.segments@[i]).0 == segs0[i].0 by {}
        }
        Ok(())
    }

    /// Seal the active segment and open the next one.
    pub fn punctuate(&mut self) -> (r: Result<(), TsinkError>)
        requires
            old(self).wf(),
        ensures
            final(self).wf(),
            r is Err <==> old(self).next_seq == u64::MAX,
            match r {
                Ok(()) => final(self).segments@.len() == old(self).segments@.len() + 1
                    && wal_bytes(final(self).segments@) == wal_bytes(old(self).segments@),
                Err(e) => e == TsinkError::IoFailure && final(self).segments@ == old(
                    self,
                ).segments@ && final(self).next_seq == old(self).next_seq,
            },
    {
        if self.next_seq == u64::MAX {
            return Err(TsinkError::IoFailure);
        }
        let n = self.next_seq;
        let fresh: Vec<u8> = Vec::new();
        let pair = (n, fresh);
        let ghost gp = pair;
        self.segments.push(pair);
        self.next_seq = n + 1;
        proof {
            lemma_wal_bytes_push(old(self).segments@, gp);
            assert(wal_bytes(self.segments@) =~= wal_bytes(old(self).segments@));
        }
        Ok(())
    }

    /// Remove the segment with the smallest number; nothing happens
    /// when none is left.
    pub fn remove_oldest(&mut self)
        requires
            old(self).wf(),
        ensures
            final(self).wf(),
            old(self).segments@.len() > 0 ==> final(self).segments@ == old(self).segments@.skip(1),
            old(self).segments@.len() == 0 ==> final(self).segments@ == old(self).segments@,
    {
        if self.segments.len() > 0 {
            self.segments.remove(0);
            proof {
                assert(self.segments@ =~= old(self).segments@.skip(1));
            }
        }
    }

    /// Drop every segment and start a fresh active one, numbered one
    /// above the previously highest.
    pub fn refresh(&mut self) -> (r: Result<(), TsinkError>)
        requires
            old(self).wf(),
        ensures
            final(self).wf(),
            r is Err <==> old(self).next_seq == u64::MAX,
            match r {
                Ok(()) => final(self).segments@.len() == 1 && wal_bytes(final(self).segments@)
                    == Seq::<u8>::empty(),
                Err(e) => e == TsinkError::IoFailure && final(self).segments@ == old(
                    self,
                ).segments@ && final(self).next_seq == old(self).next_seq,
            },
    {
        if self.next_seq == u64::MAX {
            return Err(TsinkError::IoFailure);
        }
        self.segments = Vec::new();
        let n = self.next_seq;
        self.segments.push((n, Vec::new()));
        self.next_seq = n + 1;
        proof {
            assert(self.segments@.skip(1) =~= Seq::<(u64, Vec<u8>)>::empty());
            assert(wal_bytes(self.segments@.skip(1)) == Seq::<u8>::empty());
            assert(wal_bytes(self.segments@) =~= Seq::<u8>::empty());
        }
        Ok(())
    }

    /// Read every segment in order and decode the whole stream.
    pub fn read_all(&self) -> (r: Result<Vec<Row>, TsinkError>)
        ensures
            match r {
                Ok(v) => dec_rows(wal_bytes(self.segments@)) == Some(rows_codes(row_models(v@))),
                Err(e) => e == TsinkError::CorruptWal && dec_rows(wal_bytes(self.segments@))
                    is None,
            },
    {
        let mut all: Vec<u8> = Vec::new();
        let mut i: usize = 0;
        proof {
            assert(self.segments@.skip(0) =~= self.segments@);
            assert(all@ + wal_bytes(self.segments@) =~= wal_bytes(self.segments@));
        }
        while i < self.segments.len()
            invariant
                i <= self.segments@.len(),
                all@ + wal_bytes(self.segments@.skip(i as int)) == wal_bytes(self.segments@),
            decreases self.segments@.len() - i,
        {
            proof {
                let t = self.segments@.skip(i as int);
                assert(t[0] == self.segments@[i as int]);
                assert(t.skip(1) =~= self.segments@.skip(i as int + 1));
            }
            let seg = &self.segments[i];
            let mut j: usize = 0;
            let ghost all_before = all@;
            while j < seg.1.len()
                invariant
                    j <= seg.1@.len(),
                    all@ == all_before + seg.1@.take(j as int),
                decreases seg.1@.len() - j,
            {
                all.push(seg.1[j]);
                proof {
                    assert(seg.1@.take(j as int + 1) =~= seg.1@.take(j as int).push(
                        seg.1@[j as int],
                    ));
                    assert(all@ =~= all_before + seg.1@.take(j as int + 1));
                }
                j = j + 1;
            }
            proof {
                assert(seg.1@.take(seg.1@.len() as int) =~= seg.1@);
                assert(all@ + wal_bytes(self.segments@.skip(i as int + 1)) =~= all_before + (
                self.segments@[i as int].1@ + wal_bytes(self.segments@.skip(i as int + 1))));
            }
            i = i + 1;
        }
        proof {
            assert(self.segments@.skip(self.segments@.len() as int) =~= Seq::<
                (u64, Vec<u8>),
            >::empty());
            assert(all@ + Seq::<u8>::empty() =~= all@);
        }
        decode_rows_bytes(&all)
    }
}

/// Replacing the last segment with one holding more bytes extends the
/// logged stream by those bytes.
proof fn lemma_wal_bytes_update_last(segs: Seq<(u64, Vec<u8>)>, s: (u64, Vec<u8>))
    requires
        segs.len() > 0,
    ensures
        wal_bytes(segs.update(segs.len() - 1, s)) == wal_bytes(segs.take(segs.len() - 1)) + s.1@,
        wal_bytes(segs) == wal_bytes(segs.take(segs.len() - 1)) + segs.last().1@,
    decreases segs.len(),
{
    let t = segs.update(segs.len() - 1, s);
    if segs.len() == 1 {
        assert(t[0] == s);
        assert(t.skip(1) =~= Seq::<(u64, Vec<u8>)>::empty());
        assert(segs.take(0) =~= Seq::<(u64, Vec<u8>)>::empty());
        assert(wal_bytes(t.skip(1)) == Seq::<u8>::empty());
        assert(wal_bytes(segs.take(0)) == Seq::<u8>::empty());
        assert(segs.skip(1) =~= Seq::<(u64, Vec<u8>)>::empty());
        assert(wal_bytes(segs.skip(1)) == Seq::<u8>::empty());
        assert(wal_bytes(t) =~= wal_bytes(segs.take(0)) + s.1@);
        assert(wal_bytes(segs) =~= wal_bytes(segs.take(0)) + segs.last().1@);
    } else {
        lemma_wal_bytes_update_last(segs.skip(1), s);
        assert(t[0] == segs[0]);
        assert(t.skip(1) =~= segs.skip(1).update(segs.skip(1).len() - 1, s));
        assert(segs.take(segs.len() - 1)[0] == segs[0]);
        assert(segs.take(segs.len() - 1).skip(1) =~= segs.skip(1).take(segs.skip(1).len() - 1));
        assert(segs.skip(1).last() == segs.last());
        assert(wal_bytes(t) =~= wal_bytes(segs.take(segs.len() - 1)) + s.1@);
        assert(wal_bytes(segs) =~= wal_bytes(segs.take(segs.len() - 1)) + segs.last().1@);
    }
}

/// Replaying an encoded batch yields exactly the rows that were
/// appended, in order: the write-ahead log is lossless.
#[verifier::rlimit(100)]
#[verifier::spinoff_prover]
pub proof fn lemma_wal_round_trip(rs: Seq<RowCodes>)
    requires
        forall|i: int| 0 <= i < rs.len() ==> row_codes_valid(#[trigger] rs[i]) && record_fits(
            rs[i],
        ),
    ensures
        dec_rows(enc_rows(rs)) == Some(rs),
    decreases rs.len(),
{
    if rs.len() == 0 {
    } else {
        lemma_wal_round_trip(rs.skip(1));
        let payload = enc_record(rs[0]);
        let n = payload.len() as int;
        let b = enc_rows(rs);
        assert(b =~= enc_len32(payload.len()) + payload + enc_len32(crc32_of(payload) as nat)
            + enc_rows(rs.skip(1)));
        assert(b.len() >= 4);
        assert(b.take(4) =~= enc_len32(payload.len()));
        lemma_len32_round_trip(payload.len());
        assert(b.len() - 4 >= payload.len() + 4);
        assert(b.subrange(4, 4 + n) =~= payload);
        assert(b.subrange(4 + n, 8 + n) =~= enc_len32(crc32_of(payload) as nat));
        lemma_len32_round_trip(crc32_of(payload) as nat);
        lemma_record_round_trip(rs[0]);
        assert(b.skip(8 + n) =~= enc_rows(rs.skip(1)));
        assert(seq![rs[0]] + rs.skip(1) =~= rs);
    }
}

} // verus!
