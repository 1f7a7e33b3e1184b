//! The line format of both logs.
//!
//! A record is one JSON object per line, the bytes of key and value written
//! as lowercase hexadecimal strings: `{"key":"<hex>","val":"<hex>"}` and a
//! line feed. An index entry is `{"key":"<hex>","offset":<decimal>}` and a
//! line feed. Neither encoding contains a line feed anywhere but at its end.
use vstd::prelude::*;

use crate::{DbError, KeyOffset, KeyVal};

verus! {

/// `{"key":"`
pub open spec fn key_open() -> Seq<u8> {
    seq![123u8, 34, 107, 101, 121, 34, 58, 34]
}

/// `,"val":"` (follows the closing quote of the key)
pub open spec fn val_mid() -> Seq<u8> {
    seq![44u8, 34, 118, 97, 108, 34, 58, 34]
}

/// `"}` and a line feed
pub open spec fn val_close() -> Seq<u8> {
    seq![34u8, 125, 10]
}

/// `,"offset":` (follows the closing quote of the key)
pub open spec fn offset_mid() -> Seq<u8> {
    seq![44u8, 34, 111, 102, 102, 115, 101, 116, 34, 58]
}

/// `}` and a line feed
pub open spec fn offset_close() -> Seq<u8> {
    seq![125u8, 10]
}

pub open spec fn hex_digit(n: nat) -> u8 {
    if n < 10 {
        (48 + n) as u8
    } else {
        (87 + n) as u8
    }
}

pub open spec fn is_hex_char(c: u8) -> bool {
    (48 <= c && c <= 57) || (97 <= c && c <= 102)
}

pub open spec fn hex_val(c: u8) -> nat {
    if c <= 57 {
        (c - 48) as nat
    } else {
        (c - 87) as nat
    }
}

/// Two lowercase hexadecimal digits per byte, high nibble first.
pub open spec fn hex_bytes(s: Seq<u8>) -> Seq<u8> {
    Seq::new(
        2 * s.len(),
        |i: int|
            if i % 2 == 0 {
                hex_digit((s[i / 2] / 16) as nat)
            } else {
                hex_digit((s[i / 2] % 16) as nat)
            },
    )
}

/// The decimal digits of `n`, without leading zeros.
pub open spec fn dec(n: nat) -> Seq<u8>
    decreases n,
{
    if n < 10 {
        seq![(48 + n) as u8]
    } else {
        dec(n / 10).push((48 + n % 10) as u8)
    }
}

pub open spec fn is_digit(c: u8) -> bool {
    48 <= c && c <= 57
}

/// The number that a string of decimal digits denotes.
pub open spec fn digits_val(s: Seq<u8>) -> nat
    decreases s.len(),
{
    if s.len() == 0 {
        0
    } else {
        digits_val(s.drop_last()) * 10 + (s.last() - 48) as nat
    }
}

/// The part of both encodings up to and including the key's closing quote.
pub open spec fn key_head(k: Seq<u8>) -> Seq<u8> {
    key_open() + hex_bytes(k) + seq![34u8]
}

/// The encoding of a record, line feed included.
pub open spec fn kv_line(k: Seq<u8>, v: Seq<u8>) -> Seq<u8> {
    key_head(k) + val_mid() + hex_bytes(v) + val_close()
}

/// The encoding of an index entry, line feed included.
pub open spec fn ko_line(k: Seq<u8>, o: u64) -> Seq<u8> {
    key_head(k) + offset_mid() + dec(o as nat) + offset_close()
}

pub open spec fn no_line_feed(s: Seq<u8>) -> bool {
    forall|i: int| 0 <= i < s.len() ==> s[i] != 10
}

// ---- lemmas ----

pub proof fn lemma_hex_digit(n: nat)
    requires
        n < 16,
    ensures
        is_hex_char(hex_digit(n)),
        hex_val(hex_digit(n)) == n,
{
}

pub proof fn lemma_hex_char(c: u8)
    requires
        is_hex_char(c),
    ensures
        hex_val(c) < 16,
        hex_digit(hex_val(c)) == c,
{
}

pub proof fn lemma_hex_bytes_chars(s: Seq<u8>)
    ensures
        hex_bytes(s).len() == 2 * s.len(),
        forall|i: int| 0 <= i < hex_bytes(s).len() ==> is_hex_char(#[trigger] hex_bytes(s)[i]),
{
    assert forall|i: int| 0 <= i < hex_bytes(s).len() implies is_hex_char(#[trigger] hex_bytes(s)[i]) by {
        lemma_hex_digit((s[i / 2] / 16) as nat);
        lemma_hex_digit((s[i / 2] % 16) as nat);
    }
}

pub proof fn lemma_hex_bytes_injective(a: Seq<u8>, b: Seq<u8>)
    requires
        hex_bytes(a) == hex_bytes(b),
    ensures
        a == b,
{
    assert(hex_bytes(a).len() == 2 * a.len());
    assert(hex_bytes(b).len() == 2 * b.len());
    assert forall|i: int| 0 <= i < a.len() implies a[i] == b[i] by {
        let ha = hex_bytes(a);
        let hb = hex_bytes(b);
        assert(ha[2 * i] == hb[2 * i]);
        assert(ha[2 * i + 1] == hb[2 * i + 1]);
        assert((2 * i) / 2 == i);
        assert((2 * i + 1) / 2 == i);
        assert((2 * i) % 2 == 0);
        assert((2 * i + 1) % 2 == 1);
        lemma_hex_digit((a[i] / 16) as nat);
        lemma_hex_digit((a[i] % 16) as nat);
        lemma_hex_digit((b[i] / 16) as nat);
        lemma_hex_digit((b[i] % 16) as nat);
        assert(a[i] == (a[i] / 16) * 16 + a[i] % 16);
        assert(b[i] == (b[i] / 16) * 16 + b[i] % 16);
    }
    assert(a =~= b);
}

pub proof fn lemma_dec_digits(n: nat)
    ensures
        dec(n).len() >= 1,
        forall|i: int| 0 <= i < dec(n).len() ==> is_digit(#[trigger] dec(n)[i]),
        digits_val(dec(n)) == n,
        dec(n).len() > 1 ==> dec(n)[0] != 48,
        n >= 10 ==> dec(n).len() > 1,
    decreases n,
{
    if n >= 10 {
        lemma_dec_digits(n / 10);
        let d = dec(n / 10);
        assert(dec(n) == d.push((48 + n % 10) as u8));
        assert(dec(n).drop_last() =~= d);
        assert(digits_val(dec(n)) == digits_val(d) * 10 + n % 10);
        assert(dec(n)[0] == d[0]);
        assert forall|i: int| 0 <= i < dec(n).len() implies is_digit(#[trigger] dec(n)[i]) by {
            if i < d.len() {
                assert(dec(n)[i] == d[i]);
            }
        }
        if n / 10 < 10 {
            assert(d[0] == (48 + n / 10) as u8);
        }
    } else {
        assert(dec(n).drop_last() =~= Seq::<u8>::empty());
        assert(digits_val(dec(n).drop_last()) == 0);
    }
}

pub proof fn lemma_dec_injective(a: nat, b: nat)
    requires
        dec(a) == dec(b),
    ensures
        a == b,
{
    lemma_dec_digits(a);
    lemma_dec_digits(b);
}

/// A prefix of a string of digits denotes no more than the whole.
pub proof fn lemma_digits_prefix(s: Seq<u8>, i: int)
    requires
        0 <= i <= s.len(),
        forall|j: int| 0 <= j < s.len() ==> is_digit(#[trigger] s[j]),
    ensures
        digits_val(s.take(i)) <= digits_val(s),
    decreases s.len() - i,
{
    if i < s.len() {
        lemma_digits_prefix(s, i + 1);
        assert(s.take(i + 1).drop_last() =~= s.take(i));
    } else {
        assert(s.take(i) =~= s);
    }
}

/// Digits without a leading zero are the decimal form of what they denote.
pub proof fn lemma_dec_of_digits(s: Seq<u8>)
    requires
        s.len() >= 1,
        forall|j: int| 0 <= j < s.len() ==> is_digit(#[trigger] s[j]),
        s.len() > 1 ==> s[0] != 48,
    ensures
        dec(digits_val(s)) == s,
    decreases s.len(),
{
    if s.len() == 1 {
        assert(s.drop_last() =~= Seq::<u8>::empty());
        assert(digits_val(s.drop_last()) == 0);
        assert(digits_val(s) == (s[0] - 48) as nat);
        assert(dec(digits_val(s)) =~= s);
    } else {
        let p = s.drop_last();
        assert(forall|j: int| 0 <= j < p.len() ==> #[trigger] p[j] == s[j]);
        lemma_dec_of_digits(p);
        lemma_digits_prefix(p, 1);
        assert(p.take(1).drop_last() =~= Seq::<u8>::empty());
        assert(digits_val(p) >= 1);
        let n = digits_val(s);
        assert(n == digits_val(p) * 10 + (s.last() - 48) as nat);
        assert(n / 10 == digits_val(p));
        assert(n % 10 == (s.last() - 48) as nat);
        assert(dec(n) =~= s);
    }
}

/// Where the key's closing quote stands in every line that begins with a key.
pub proof fn lemma_key_head(k: Seq<u8>)
    ensures
        key_head(k).len() == 9 + 2 * (k.len() as int),
        key_head(k).subrange(0, 8) == key_open(),
        key_head(k).subrange(8, 8 + 2 * (k.len() as int)) == hex_bytes(k),
        key_head(k)[8 + 2 * (k.len() as int)] == 34,
        forall|j: int| 8 <= j < 8 + 2 * (k.len() as int) ==> #[trigger] key_head(k)[j] != 34 && key_head(k)[j] != 10,
{
    lemma_hex_bytes_chars(k);
    let h = key_head(k);
    assert(h.subrange(0, 8) =~= key_open());
    assert(h.subrange(8, 8 + 2 * (k.len() as int)) =~= hex_bytes(k));
    assert forall|j: int| 8 <= j < 8 + 2 * (k.len() as int) implies #[trigger] h[j] != 34 && h[j] != 10 by {
        assert(h[j] == hex_bytes(k)[j - 8]);
    }
}

/// Two lines that begin with a key begin with the same key only if their
/// heads agree, and then what follows the heads agrees too.
pub proof fn lemma_key_head_unique(k1: Seq<u8>, r1: Seq<u8>, k2: Seq<u8>, r2: Seq<u8>)
    requires
        key_head(k1) + r1 == key_head(k2) + r2,
    ensures
        k1 == k2,
        r1 == r2,
{
    lemma_key_head(k1);
    lemma_key_head(k2);
    let l = key_head(k1) + r1;
    let q1 = 8 + 2 * (k1.len() as int);
    let q2 = 8 + 2 * (k2.len() as int);
    if q1 < q2 {
        assert(l[q1] == key_head(k1)[q1]);
        assert(l[q1] == key_head(k2)[q1]);
    } else if q2 < q1 {
        assert(l[q2] == key_head(k2)[q2]);
        assert(l[q2] == key_head(k1)[q2]);
    }
    assert(k1.len() == k2.len());
    assert(l.subrange(8, q1) == key_head(k1).subrange(8, q1));
    assert((key_head(k2) + r2).subrange(8, q2) == key_head(k2).subrange(8, q2));
    lemma_hex_bytes_injective(k1, k2);
    assert(r1 =~= l.subrange(q1 + 1, l.len() as int));
    assert(r2 =~= (key_head(k2) + r2).subrange(q2 + 1, l.len() as int));
}

/// A record line determines its key and value.
pub proof fn lemma_kv_line_injective(k1: Seq<u8>, v1: Seq<u8>, k2: Seq<u8>, v2: Seq<u8>)
    requires
        kv_line(k1, v1) == kv_line(k2, v2),
    ensures
        k1 == k2,
        v1 == v2,
{
    let t1 = val_mid() + hex_bytes(v1) + val_close();
    let t2 = val_mid() + hex_bytes(v2) + val_close();
    assert(kv_line(k1, v1) =~= key_head(k1) + t1);
    assert(kv_line(k2, v2) =~= key_head(k2) + t2);
    lemma_key_head_unique(k1, t1, k2, t2);
    assert(hex_bytes(v1).len() == 2 * (v1.len() as int));
    assert(hex_bytes(v2).len() == 2 * (v2.len() as int));
    assert(t1.subrange(8, 8 + 2 * (v1.len() as int)) =~= hex_bytes(v1));
    assert(t2.subrange(8, 8 + 2 * (v2.len() as int)) =~= hex_bytes(v2));
    lemma_hex_bytes_injective(v1, v2);
}

/// An index line determines its key and offset.
pub proof fn lemma_ko_line_injective(k1: Seq<u8>, o1: u64, k2: Seq<u8>, o2: u64)
    requires
        ko_line(k1, o1) == ko_line(k2, o2),
    ensures
        k1 == k2,
        o1 == o2,
{
    let t1 = offset_mid() + dec(o1 as nat) + offset_close();
    let t2 = offset_mid() + dec(o2 as nat) + offset_close();
    assert(ko_line(k1, o1) =~= key_head(k1) + t1);
    assert(ko_line(k2, o2) =~= key_head(k2) + t2);
    lemma_key_head_unique(k1, t1, k2, t2);
    let n1 = dec(o1 as nat).len() as int;
    let n2 = dec(o2 as nat).len() as int;
    assert(t1.subrange(10, 10 + n1) =~= dec(o1 as nat));
    assert(t2.subrange(10, 10 + n2) =~= dec(o2 as nat));
    lemma_dec_injective(o1 as nat, o2 as nat);
}

/// The only line feed of a record line is its last byte.
pub proof fn lemma_kv_line_shape(k: Seq<u8>, v: Seq<u8>)
    ensures
        kv_line(k, v).len() == 20 + 2 * (k.len() as int) + 2 * (v.len() as int),
        kv_line(k, v).last() == 10,
        no_line_feed(kv_line(k, v).drop_last()),
{
    lemma_key_head(k);
    lemma_hex_bytes_chars(v);
    let l = kv_line(k, v);
    let q = 8 + 2 * (k.len() as int);
    assert forall|i: int| 0 <= i < l.len() - 1 implies #[trigger] l.drop_last()[i] != 10 by {
        if 8 <= i < q {
            assert(l[i] == key_head(k)[i]);
        } else if q + 9 <= i < q + 9 + 2 * (v.len() as int) {
            assert(l[i] == hex_bytes(v)[i - q - 9]);
        }
    }
}

/// The only line feed of an index line is its last byte.
pub proof fn lemma_ko_line_shape(k: Seq<u8>, o: u64)
    ensures
        ko_line(k, o).last() == 10,
        no_line_feed(ko_line(k, o).drop_last()),
{
    lemma_key_head(k);
    lemma_dec_digits(o as nat);
    let l = ko_line(k, o);
    let q = 8 + 2 * (k.len() as int);
    assert forall|i: int| 0 <= i < l.len() - 1 implies #[trigger] l.drop_last()[i] != 10 by {
        if 8 <= i < q {
            assert(l[i] == key_head(k)[i]);
        } else if q + 11 <= i < q + 11 + dec(o as nat).len() {
            assert(l[i] == dec(o as nat)[i - q - 11]);
        }
    }
}

// ---- executable ----

fn hex_char(n: u8) -> (r: u8)
    requires
        n < 16,
    ensures
        r == hex_digit(n as nat),
{
    if n < 10 {
        48 + n
    } else {
        87 + n
    }
}

fn push_hex(out: &mut Vec<u8>, s: &[u8])
    ensures
        final(out)@ == old(out)@ + hex_bytes(s@),
{
    let ghost start = out@;
    let mut i: usize = 0;
    while i < s.len()
        invariant
            i <= s.len(),
            out@.len() == start.len() + 2 * i,
            forall|j: int| 0 <= j < start.len() ==> #[trigger] out@[j] == start[j],
            forall|j: int| 0 <= j < 2 * i ==> #[trigger] out@[start.len() + j] == hex_bytes(s@)[j],
        decreases s.len() - i,
    {
        let b = s[i];
        out.push(hex_char(b / 16));
        out.push(hex_char(b % 16));
        assert forall|j: int| 0 <= j < 2 * i + 2 implies #[trigger] out@[start.len() + j] == hex_bytes(s@)[j] by {
            if j == 2 * i {
                assert(j / 2 == i as int && j % 2 == 0);
            } else if j == 2 * i + 1 {
                assert(j / 2 == i as int && j % 2 == 1);
            }
        }
        i = i + 1;
    }
    let ghost h = hex_bytes(s@);
    assert forall|k: int| 0 <= k < out@.len() implies #[trigger] out@[k] == (start + h)[k] by {
        if k >= start.len() {
            let j = k - start.len();
            assert(out@[start.len() + j] == h[j]);
        }
    }
    assert(out@ =~= start + h);
}

fn push_dec(out: &mut Vec<u8>, n: u64)
    ensures
        final(out)@ == old(out)@ + dec(n as nat),
    decreases n,
{
    if n >= 10 {
        push_dec(out, n / 10);
    }
    out.push(48 + (n % 10) as u8);
    assert(out@ =~= old(out)@ + dec(n as nat));
}

fn push_key_head(out: &mut Vec<u8>, k: &[u8])
    ensures
        final(out)@ == old(out)@ + key_head(k@),
{
    out.push(123);
    out.push(34);
    out.push(107);
    out.push(101);
    out.push(121);
    out.push(34);
    out.push(58);
    out.push(34);
    push_hex(out, k);
    out.push(34);
    assert(out@ =~= old(out)@ + key_head(k@));
}

/// Encodes a record as one line, line feed included.
pub fn encode_key_val(kv: &KeyVal) -> (r: Vec<u8>)
    ensures
        r@ == kv_line(kv.key@, kv.val@),
{
    let mut out: Vec<u8> = Vec::new();
    push_key_head(&mut out, kv.key.as_slice());
    out.push(44);
    out.push(34);
    out.push(118);
    out.push(97);
    out.push(108);
    out.push(34);
    out.push(58);
    out.push(34);
    push_hex(&mut out, kv.val.as_slice());
    out.push(34);
    out.push(125);
    out.push(10);
    assert(out@ =~= kv_line(kv.key@, kv.val@));
    out
}

/// Encodes an index entry as one line, line feed included.
pub fn encode_key_offset(ko: &KeyOffset) -> (r: Vec<u8>)
    ensures
        r@ == ko_line(ko.key@, ko.offset),
{
    let mut out: Vec<u8> = Vec::new();
    push_key_head(&mut out, ko.key.as_slice());
    out.push(44);
    out.push(34);
    out.push(111);
    out.push(102);
    out.push(102);
    out.push(115);
    out.push(101);
    out.push(116);
    out.push(34);
    out.push(58);
    push_dec(&mut out, ko.offset);
    out.push(125);
    out.push(10);
    assert(out@ =~= ko_line(ko.key@, ko.offset));
    out
}

fn hex_value(c: u8) -> (r: Option<u8>)
    ensures
        r is Some <==> is_hex_char(c),
        r is Some ==> r->0 as nat == hex_val(c) && r->0 < 16,
{
    if 48 <= c && c <= 57 {
        Some(c - 48)
    } else if 97 <= c && c <= 102 {
        Some(c - 87)
    } else {
        None
    }
}

/// Decodes the hexadecimal digits `s[lo..hi]` into bytes.
fn unhex(s: &[u8], lo: usize, hi: usize) -> (r: Option<Vec<u8>>)
    requires
        lo <= hi <= s.len(),
    ensures
        match r {
            Some(v) => hex_bytes(v@) == s@.subrange(lo as int, hi as int),
            None => forall|v: Seq<u8>| hex_bytes(v) != s@.subrange(lo as int, hi as int),
        },
{
    let ghost sub = s@.subrange(lo as int, hi as int);
    if (hi - lo) % 2 != 0 {
        proof {
            assert forall|v: Seq<u8>| hex_bytes(v) != sub by {
                assert(hex_bytes(v).len() == 2 * v.len());
            }
        }
        return None;
    }
    let n: usize = (hi - lo) / 2;
    let mut out: Vec<u8> = Vec::new();
    let mut i: usize = 0;
    while i < n
        invariant
            lo <= hi <= s.len(),
            n * 2 == hi - lo,
            sub == s@.subrange(lo as int, hi as int),
            i <= n,
            out@.len() == i,
            forall|j: int| 0 <= j < 2 * i ==> #[trigger] hex_bytes(out@)[j] == sub[j],
        decreases n - i,
    {
        let c1 = s[lo + 2 * i];
        let c2 = s[lo + 2 * i + 1];
        let h1 = hex_value(c1);
        let h2 = hex_value(c2);
        if h1.is_none() || h2.is_none() {
            proof {
                assert forall|v: Seq<u8>| hex_bytes(v) != sub by {
                    lemma_hex_bytes_chars(v);
                    if hex_bytes(v) == sub {
                        assert(sub[2 * i as int] == c1);
                        assert(sub[2 * i + 1] == c2);
                        assert(is_hex_char(hex_bytes(v)[2 * i as int]));
                        assert(is_hex_char(hex_bytes(v)[2 * i + 1]));
                    }
                }
            }
            return None;
        }
        let a = h1.unwrap();
        let b = h2.unwrap();
        let byte: u8 = a * 16 + b;
        let ghost prev = out@;
        out.push(byte);
        proof {
            lemma_hex_char(c1);
            lemma_hex_char(c2);
            assert(byte / 16 == a && byte % 16 == b);
            assert forall|j: int| 0 <= j < 2 * i + 2 implies #[trigger] hex_bytes(out@)[j] == sub[j] by {
                if j < 2 * i {
                    assert(hex_bytes(prev)[j] == sub[j]);
                    assert(out@[j / 2] == prev[j / 2]);
                } else if j == 2 * i {
                    assert(j / 2 == i as int && j % 2 == 0);
                    assert(sub[j] == c1);
                } else {
                    assert(j / 2 == i as int && j % 2 == 1);
                    assert(sub[j] == c2);
                }
            }
        }
        i = i + 1;
    }
    assert(hex_bytes(out@) =~= sub);
    Some(out)
}

/// Reads the decimal digits `s[lo..hi]` as a `u64`, refusing leading zeros.
fn parse_dec(s: &[u8], lo: usize, hi: usize) -> (r: Option<u64>)
    requires
        lo <= hi <= s.len(),
    ensures
        match r {
            Some(n) => dec(n as nat) == s@.subrange(lo as int, hi as int),
            None => forall|n: u64| dec(n as nat) != s@.subrange(lo as int, hi as int),
        },
{
    let ghost sub = s@.subrange(lo as int, hi as int);
    if lo == hi || (hi - lo > 1 && s[lo] == 48) {
        proof {
            assert forall|n: u64| dec(n as nat) != sub by {
                lemma_dec_digits(n as nat);
                if dec(n as nat) == sub {
                    assert(sub[0] == s@[lo as int]);
                }
            }
        }
        return None;
    }
    let mut v: u64 = 0;
    let mut i: usize = 0;
    while i < hi - lo
        invariant
            lo < hi <= s.len(),
            sub == s@.subrange(lo as int, hi as int),
            i <= hi - lo,
            v as nat == digits_val(sub.take(i as int)),
            forall|j: int| 0 <= j < i ==> is_digit(#[trigger] sub[j]),
        decreases hi - lo - i,
    {
        let c = s[lo + i];
        assert(sub[i as int] == c);
        if c < 48 || c > 57 {
            proof {
                assert forall|n: u64| dec(n as nat) != sub by {
                    lemma_dec_digits(n as nat);
                }
            }
            return None;
        }
        proof {
            assert(sub.take(i + 1).drop_last() =~= sub.take(i as int));
        }
        if v > 1844674407370955161 || (v == 1844674407370955161 && c > 53) {
            proof {
                assert forall|n: u64| dec(n as nat) != sub by {
                    lemma_dec_digits(n as nat);
                    if dec(n as nat) == sub {
                        lemma_digits_prefix(sub, i + 1);
                    }
                }
            }
            return None;
        }
        v = v * 10 + (c - 48) as u64;
        i = i + 1;
    }
    proof {
        assert(sub.take(sub.len() as int) =~= sub);
        assert(sub[0] == s@[lo as int]);
        lemma_dec_of_digits(sub);
    }
    Some(v)
}

/// The first position at or after `from` that holds `b`.
pub(crate) fn find_byte(s: &[u8], from: usize, b: u8) -> (r: Option<usize>)
    requires
        from <= s.len(),
    ensures
        match r {
            Some(q) => from <= q < s.len() && s@[q as int] == b && forall|j: int|
                from <= j < q ==> #[trigger] s@[j] != b,
            None => forall|j: int| from <= j < s.len() ==> #[trigger] s@[j] != b,
        },
{
    let mut i: usize = from;
    while i < s.len()
        invariant
            from <= i <= s.len(),
            forall|j: int| from <= j < i ==> #[trigger] s@[j] != b,
        decreases s.len() - i,
    {
        if s[i] == b {
            return Some(i);
        }
        i = i + 1;
    }
    None
}

pub(crate) fn bytes_eq(a: &[u8], b: &[u8]) -> (r: bool)
    ensures
        r == (a@ == b@),
{
    if a.len() != b.len() {
        return false;
    }
    let mut i: usize = 0;
    while i < a.len()
        invariant
            a.len() == b.len(),
            i <= a.len(),
            forall|j: int| 0 <= j < i ==> a@[j] == b@[j],
        decreases a.len() - i,
    {
        if a[i] != b[i] {
            return false;
        }
        i = i + 1;
    }
    assert(a@ =~= b@);
    true
}

/// Where the parts of a record line stand.
pub proof fn lemma_kv_line_layout(k: Seq<u8>, v: Seq<u8>)
    ensures
        ({
            let l = kv_line(k, v);
            let q = 8 + 2 * (k.len() as int);
            &&& l.len() == q + 12 + 2 * (v.len() as int)
            &&& l[q] == 34
            &&& forall|j: int| 8 <= j < q ==> #[trigger] l[j] != 34
            &&& l.subrange(8, q) == hex_bytes(k)
            &&& l.subrange(q + 9, l.len() - 3) == hex_bytes(v)
        }),
{
    lemma_key_head(k);
    let l = kv_line(k, v);
    let q = 8 + 2 * (k.len() as int);
    assert(l[q] == key_head(k)[q]);
    assert forall|j: int| 8 <= j < q implies #[trigger] l[j] != 34 by {
        assert(l[j] == key_head(k)[j]);
    }
    assert(l.subrange(8, q) =~= key_head(k).subrange(8, q));
    assert(l.subrange(q + 9, l.len() - 3) =~= hex_bytes(v));
}

/// Where the parts of an index line stand.
pub proof fn lemma_ko_line_layout(k: Seq<u8>, o: u64)
    ensures
        ({
            let l = ko_line(k, o);
            let q = 8 + 2 * (k.len() as int);
            &&& l.len() == q + 13 + dec(o as nat).len()
            &&& l[q] == 34
            &&& forall|j: int| 8 <= j < q ==> #[trigger] l[j] != 34
            &&& l.subrange(8, q) == hex_bytes(k)
            &&& l.subrange(q + 11, l.len() - 2) == dec(o as nat)
        }),
{
    lemma_key_head(k);
    let l = ko_line(k, o);
    let q = 8 + 2 * (k.len() as int);
    assert(l[q] == key_head(k)[q]);
    assert forall|j: int| 8 <= j < q implies #[trigger] l[j] != 34 by {
        assert(l[j] == key_head(k)[j]);
    }
    assert(l.subrange(8, q) =~= key_head(k).subrange(8, q));
    assert(l.subrange(q + 11, l.len() - 2) =~= dec(o as nat));
}

/// Decodes one record line, line feed included.
///
/// Succeeds exactly on the lines that `encode_key_val` produces.
pub fn decode_key_val(line: &[u8]) -> (r: Result<KeyVal, DbError>)
    ensures
        match r {
            Ok(kv) => kv_line(kv.key@, kv.val@) == line@,
            Err(e) => e == DbError::Decode && forall|k: Seq<u8>, v: Seq<u8>|
                kv_line(k, v) != line@,
        },
{
    let n = line.len();
    if n < 8 {
        proof {
            assert forall|k: Seq<u8>, v: Seq<u8>| kv_line(k, v) != line@ by {
                lemma_kv_line_layout(k, v);
            }
        }
        return Err(DbError::Decode);
    }
    let q = match find_byte(line, 8, 34) {
        Some(q) => q,
        None => {
            proof {
                assert forall|k: Seq<u8>, v: Seq<u8>| kv_line(k, v) != line@ by {
                    lemma_kv_line_layout(k, v);
                }
            }
            return Err(DbError::Decode);
        },
    };
    let key = match unhex(line, 8, q) {
        Some(key) => key,
        None => {
            proof {
                assert forall|k: Seq<u8>, v: Seq<u8>| kv_line(k, v) != line@ by {
                    lemma_kv_line_layout(k, v);
                }
            }
            return Err(DbError::Decode);
        },
    };
    if n - q < 12 {
        proof {
            assert forall|k: Seq<u8>, v: Seq<u8>| kv_line(k, v) != line@ by {
                lemma_kv_line_layout(k, v);
            }
        }
        return Err(DbError::Decode);
    }
    let val = match unhex(line, q + 9, n - 3) {
        Some(val) => val,
        None => {
            proof {
                assert forall|k: Seq<u8>, v: Seq<u8>| kv_line(k, v) != line@ by {
                    lemma_kv_line_layout(k, v);
                }
            }
            return Err(DbError::Decode);
        },
    };
    let kv = KeyVal { key, val };
    let enc = encode_key_val(&kv);
    if bytes_eq(enc.as_slice(), line) {
        Ok(kv)
    } else {
        proof {
            assert forall|k: Seq<u8>, v: Seq<u8>| kv_line(k, v) != line@ by {
                lemma_kv_line_layout(k, v);
                if kv_line(k, v) == line@ {
                    lemma_hex_bytes_injective(k, kv.key@);
                    lemma_hex_bytes_injective(v, kv.val@);
                }
            }
        }
        Err(DbError::Decode)
    }
}

/// Decodes one index line, line feed included.
///
/// Succeeds exactly on the lines that `encode_key_offset` produces.
pub fn decode_key_offset(line: &[u8]) -> (r: Result<KeyOffset, DbError>)
    ensures
        match r {
            Ok(ko) => ko_line(ko.key@, ko.offset) == line@,
            Err(e) => e == DbError::Decode && forall|k: Seq<u8>, o: u64|
                ko_line(k, o) != line@,
        },
{
    let n = line.len();
    if n < 8 {
        proof {
            assert forall|k: Seq<u8>, o: u64| ko_line(k, o) != line@ by {
                lemma_ko_line_layout(k, o);
            }
        }
        return Err(DbError::Decode);
    }
    let q = match find_byte(line, 8, 34) {
        Some(q) => q,
        None => {
            proof {
                assert forall|k: Seq<u8>, o: u64| ko_line(k, o) != line@ by {
                    lemma_ko_line_layout(k, o);
                }
            }
            return Err(DbError::Decode);
        },
    };
    let key = match unhex(line, 8, q) {
        Some(key) => key,
        None => {
            proof {
                assert forall|k: Seq<u8>, o: u64| ko_line(k, o) != line@ by {
                    lemma_ko_line_layout(k, o);
                }
            }
            return Err(DbError::Decode);
        },
    };
    if n - q < 13 {
        proof {
            assert forall|k: Seq<u8>, o: u64| ko_line(k, o) != line@ by {
                lemma_ko_line_layout(k, o);
            }
        }
        return Err(DbError::Decode);
    }
    let offset = match parse_dec(line, q + 11, n - 2) {
        Some(offset) => offset,
        None => {
            proof {
                assert forall|k: Seq<u8>, o: u64| ko_line(k, o) != line@ by {
                    lemma_ko_line_layout(k, o);
                }
            }
            return Err(DbError::Decode);
        },
    };
    let ko = KeyOffset { key, offset };
    let enc = encode_key_offset(&ko);
    if bytes_eq(enc.as_slice(), line) {
        Ok(ko)
    } else {
        proof {
            assert forall|k: Seq<u8>, o: u64| ko_line(k, o) != line@ by {
                lemma_ko_line_layout(k, o);
                if ko_line(k, o) == line@ {
                    lemma_hex_bytes_injective(k, ko.key@);
                    lemma_dec_injective(o as nat, ko.offset as nat);
                }
            }
        }
        Err(DbError::Decode)
    }
}

} // verus!
