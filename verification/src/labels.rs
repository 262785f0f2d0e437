use vstd::prelude::*;
use crate::types::Label;

verus! {

/// FNV-1a offset basis for the 64-bit fingerprint.
pub const FNV_OFFSET: u64 = 0xcbf2_9ce4_8422_2325;

/// FNV-1a prime for the 64-bit fingerprint.
pub const FNV_PRIME: u64 = 0x0000_0100_0000_01b3;

/// Separator word folded between the fields of a metric key.  It lies
/// outside the range of any character, so distinct field layouts hash
/// from distinct word streams.
pub const FIELD_SEP: u64 = 0xffff_ffff;

/// One FNV-1a step: fold one word into the running hash.
pub open spec fn fnv_step(h: u64, w: u64) -> u64 {
    (h ^ w).wrapping_mul(FNV_PRIME)
}

/// Fold a character sequence into the running hash, front to back.
pub open spec fn fnv_chars(h: u64, s: Seq<char>) -> u64
    decreases s.len(),
{
    if s.len() == 0 {
        h
    } else {
        fnv_chars(fnv_step(h, s[0] as u64), s.skip(1))
    }
}

/// The view of a label vector: its `(name, value)` character pairs.
pub open spec fn labels_view(s: Seq<Label>) -> Seq<(Seq<char>, Seq<char>)> {
    s.map_values(|l: Label| l@)
}

/// Strict lexicographic order on character sequences, by code point.
pub open spec fn chars_lt(a: Seq<char>, b: Seq<char>) -> bool
    decreases a.len(),
{
    if b.len() == 0 {
        false
    } else if a.len() == 0 {
        true
    } else if a[0] != b[0] {
        (a[0] as u32) < (b[0] as u32)
    } else {
        chars_lt(a.skip(1), b.skip(1))
    }
}

/// Canonical order on labels: by name, then by value.
pub open spec fn label_le(a: (Seq<char>, Seq<char>), b: (Seq<char>, Seq<char>)) -> bool {
    chars_lt(a.0, b.0) || (a.0 == b.0 && (chars_lt(a.1, b.1) || a.1 == b.1))
}

/// Insert one label into an already canonically ordered sequence, in
/// front of the first entry it precedes or equals.
pub open spec fn insert_canonical(
    x: (Seq<char>, Seq<char>),
    s: Seq<(Seq<char>, Seq<char>)>,
) -> Seq<(Seq<char>, Seq<char>)>
    decreases s.len(),
{
    if s.len() == 0 {
        seq![x]
    } else if label_le(x, s[0]) {
        seq![x] + s
    } else {
        seq![s[0]] + insert_canonical(x, s.skip(1))
    }
}

/// The canonical form of a label sequence: sorted on name then value by
/// insertion, duplicates preserved.
pub open spec fn canonical_label_seq(s: Seq<(Seq<char>, Seq<char>)>) -> Seq<(Seq<char>, Seq<char>)>
    decreases s.len(),
{
    if s.len() == 0 {
        Seq::empty()
    } else {
        insert_canonical(s[0], canonical_label_seq(s.skip(1)))
    }
}

/// The 64-bit fingerprint of one metric key: the metric characters and
/// the canonical label pairs, folded FNV-1a style with separators.
pub open spec fn hash_label(h: u64, l: (Seq<char>, Seq<char>)) -> u64 {
    fnv_step(fnv_chars(fnv_step(fnv_chars(h, l.0), FIELD_SEP), l.1), FIELD_SEP)
}

pub open spec fn hash_labels(h: u64, ls: Seq<(Seq<char>, Seq<char>)>) -> u64
    decreases ls.len(),
{
    if ls.len() == 0 {
        h
    } else {
        hash_labels(hash_label(h, ls[0]), ls.skip(1))
    }
}

/// The series identifier of a metric with its labels.  Equality of
/// identifiers is taken as equality of metric keys; hash collisions are
/// ignored.
pub open spec fn series_id(metric: Seq<char>, labels: Seq<(Seq<char>, Seq<char>)>) -> u64 {
    hash_labels(
        fnv_step(fnv_chars(FNV_OFFSET, metric), FIELD_SEP),
        canonical_label_seq(labels),
    )
}

impl Label {
    /// An exact copy, with its view pinned down (a derived clone would
    /// say nothing about the result).
    pub fn dup(&self) -> (r: Label)
        ensures
            r@ == self@,
    {
        Label { name: self.name.clone(), value: self.value.clone() }
    }
}

/// Fold the characters of a string into the running hash.
fn fnv_str(h0: u64, s: &str) -> (r: u64)
    ensures
        r == fnv_chars(h0, s@),
{
    let len: usize = s.unicode_len();
    let mut h: u64 = h0;
    let mut i: usize = 0;
    proof {
        assert(s@.skip(0) =~= s@);
    }
    while i < len
        invariant
            i <= len,
            len == s@.len(),
            fnv_chars(h0, s@) == fnv_chars(h, s@.skip(i as int)),
        decreases len - i,
    {
        let c = s.get_char(i);
        proof {
            let t = s@.skip(i as int);
            assert(t[0] == s@[i as int]);
            assert(t.skip(1) =~= s@.skip(i as int + 1));
        }
        h = (h ^ (c as u64)).wrapping_mul(FNV_PRIME);
        i = i + 1;
    }
    proof {
        assert(s@.skip(len as int) =~= Seq::<char>::empty());
    }
    h
}

/// Decide `chars_lt(a@, b@)` by walking both strings.
pub fn str_lt(a: &str, b: &str) -> (r: bool)
    ensures
        r == chars_lt(a@, b@),
{
    let alen: usize = a.unicode_len();
    let blen: usize = b.unicode_len();
    let mut i: usize = 0;
    proof {
        assert(a@.skip(0) =~= a@);
        assert(b@.skip(0) =~= b@);
    }
    loop
        invariant
            i <= alen,
            i <= blen,
            alen == a@.len(),
            blen == b@.len(),
            chars_lt(a@, b@) == chars_lt(a@.skip(i as int), b@.skip(i as int)),
        decreases alen - i,
    {
        if i >= blen {
            return false;
        }
        if i >= alen {
            return true;
        }
        let ca = a.get_char(i);
        let cb = b.get_char(i);
        proof {
            let ta = a@.skip(i as int);
            let tb = b@.skip(i as int);
            assert(ta[0] == a@[i as int]);
            assert(tb[0] == b@[i as int]);
            assert(ta.skip(1) =~= a@.skip(i as int + 1));
            assert(tb.skip(1) =~= b@.skip(i as int + 1));
        }
        if ca != cb {
            return (ca as u32) < (cb as u32);
        }
        i = i + 1;
    }
}

/// Decide the canonical order `label_le(a@, b@)`.
fn label_le_exec(a: &Label, b: &Label) -> (r: bool)
    ensures
        r == label_le(a@, b@),
{
    if str_lt(a.name.as_str(), b.name.as_str()) {
        true
    } else if a.name == b.name {
        str_lt(a.value.as_str(), b.value.as_str()) || a.value == b.value
    } else {
        false
    }
}

/// Inserting at the first position whose entry the new label precedes
/// or equals is exactly the recursive canonical insertion.
proof fn lemma_insert_at_first_position(
    x: (Seq<char>, Seq<char>),
    s: Seq<(Seq<char>, Seq<char>)>,
    j: int,
)
    requires
        0 <= j <= s.len(),
        forall|k: int| 0 <= k < j ==> !label_le(x, s[k]),
        j < s.len() ==> label_le(x, s[j]),
    ensures
        insert_canonical(x, s) == s.insert(j, x),
    decreases j,
{
    if j == 0 {
        if s.len() == 0 {
            assert(s.insert(0, x) =~= seq![x]);
        } else {
            assert(s.insert(0, x) =~= seq![x] + s);
        }
    } else {
        assert(!label_le(x, s[0]));
        lemma_insert_at_first_position(x, s.skip(1), j - 1);
        assert(s.insert(j, x) =~= seq![s[0]] + s.skip(1).insert(j - 1, x));
    }
}

/// The first position whose entry the new label precedes or equals.
fn find_insert_position(x: &Label, v: &Vec<Label>) -> (j: usize)
    ensures
        j <= v.len(),
        forall|k: int| 0 <= k < j ==> !label_le(x@, labels_view(v@)[k]),
        j < v.len() ==> label_le(x@, labels_view(v@)[j as int]),
{
    let mut j: usize = 0;
    while j < v.len()
        invariant
            j <= v.len(),
            forall|k: int| 0 <= k < j ==> !label_le(x@, labels_view(v@)[k]),
        decreases v.len() - j,
    {
        if label_le_exec(x, &v[j]) {
            return j;
        }
        j = j + 1;
    }
    j
}

/// Insert one label into a canonically ordered vector.
fn insert_label_canonical(x: Label, v: &mut Vec<Label>)
    ensures
        labels_view(final(v)@) == insert_canonical(x@, labels_view(old(v)@)),
{
    let ghost s = labels_view(v@);
    let j = find_insert_position(&x, v);
    proof {
        lemma_insert_at_first_position(x@, s, j as int);
    }
    v.insert(j, x);
    proof {
        assert(labels_view(v@) =~= s.insert(j as int, x@));
    }
}

/// The canonical form of a label vector: sorted on name then value,
/// duplicates preserved.
pub fn canonicalize_labels(labels: &Vec<Label>) -> (r: Vec<Label>)
    ensures
        labels_view(r@) == canonical_label_seq(labels_view(labels@)),
{
    let ghost full = labels_view(labels@);
    let mut r: Vec<Label> = Vec::new();
    let mut i: usize = labels.len();
    while i > 0
        invariant
            i <= labels.len(),
            full == labels_view(labels@),
            labels_view(r@) == canonical_label_seq(full.skip(i as int)),
        decreases i,
    {
        i = i - 1;
        proof {
            let t = full.skip(i as int);
            assert(t[0] == full[i as int]);
            assert(t.skip(1) =~= full.skip(i as int + 1));
        }
        insert_label_canonical(labels[i].dup(), &mut r);
    }
    proof {
        assert(full.skip(0) =~= full);
    }
    r
}

/// The series identifier, computed from the metric name and an already
/// canonicalized label vector.
pub fn series_id_of(metric: &str, canonical: &Vec<Label>) -> (r: u64)
    ensures
        r == hash_labels(
            fnv_step(fnv_chars(FNV_OFFSET, metric@), FIELD_SEP),
            labels_view(canonical@),
        ),
{
    let mut h: u64 = fnv_str(FNV_OFFSET, metric);
    h = (h ^ FIELD_SEP).wrapping_mul(FNV_PRIME);
    let ghost ls = labels_view(canonical@);
    let mut i: usize = 0;
    proof {
        assert(ls.skip(0) =~= ls);
    }
    while i < canonical.len()
        invariant
            i <= canonical.len(),
            ls == labels_view(canonical@),
            hash_labels(fnv_step(fnv_chars(FNV_OFFSET, metric@), FIELD_SEP), ls)
                == hash_labels(h, ls.skip(i as int)),
        decreases canonical.len() - i,
    {
        proof {
            let t = ls.skip(i as int);
            assert(t[0] == ls[i as int]);
            assert(t.skip(1) =~= ls.skip(i as int + 1));
        }
        let l = &canonical[i];
        h = fnv_str(h, l.name.as_str());
        h = (h ^ FIELD_SEP).wrapping_mul(FNV_PRIME);
        h = fnv_str(h, l.value.as_str());
        h = (h ^ FIELD_SEP).wrapping_mul(FNV_PRIME);
        i = i + 1;
    }
    proof {
        assert(ls.skip(canonical.len() as int) =~= Seq::<(Seq<char>, Seq<char>)>::empty());
    }
    h
}

} // verus!
