//! Capture times and the metadata field they are read from.
use vstd::prelude::*;

verus! {

/// A capture time as read from a photo's metadata: six numbers, with no
/// calendar check and no time zone.
#[derive(Clone, Copy, Debug, PartialEq, Eq, Structural)]
pub struct Timestamp {
    pub year: u32,
    pub month: u32,
    pub day: u32,
    pub hour: u32,
    pub minute: u32,
    pub second: u32,
}

} // verus!

verus! {

/// Length of the field value `DDDD:DD:DD DD:DD:DD`.
pub const STAMP_LEN: usize = 19;

pub open spec fn is_ascii_digit(b: u8) -> bool {
    48 <= b && b <= 57
}

/// Whether byte `b` fits position `k` of `DDDD:DD:DD DD:DD:DD`.
pub open spec fn fits_shape(k: int, b: u8) -> bool {
    if k == 4 || k == 7 || k == 13 || k == 16 {
        b == 58
    } else if k == 10 {
        b == 32
    } else {
        is_ascii_digit(b)
    }
}

/// Whether a capture time in the shape `DDDD:DD:DD DD:DD:DD` starts at `p`.
pub open spec fn stamp_at(t: Seq<u8>, p: int) -> bool {
    0 <= p && p + 19 <= t.len() && forall|k: int| 0 <= k < 19 ==> #[trigger] fits_shape(k, t[p + k])
}

/// The number written by the `len` decimal digits of `t` that start at `p`.
pub open spec fn digits_value(t: Seq<u8>, p: int, len: nat) -> nat
    decreases len,
{
    if len == 0 {
        0
    } else {
        digits_value(t, p, (len - 1) as nat) * 10 + (t[p + len - 1] - 48) as nat
    }
}

/// The capture time written at `p`.
pub open spec fn stamp_value(t: Seq<u8>, p: int) -> Timestamp {
    Timestamp {
        year: digits_value(t, p, 4) as u32,
        month: digits_value(t, p + 5, 2) as u32,
        day: digits_value(t, p + 8, 2) as u32,
        hour: digits_value(t, p + 11, 2) as u32,
        minute: digits_value(t, p + 14, 2) as u32,
        second: digits_value(t, p + 17, 2) as u32,
    }
}

/// The first capture time found in `t` at or after `p`.
pub open spec fn scan_from(t: Seq<u8>, p: int) -> Option<Timestamp>
    decreases t.len() - p,
{
    if p < 0 || p + 19 > t.len() {
        None
    } else if stamp_at(t, p) {
        Some(stamp_value(t, p))
    } else {
        scan_from(t, p + 1)
    }
}

/// The capture time that a metadata field value holds: its leftmost part in
/// the shape `DDDD:DD:DD DD:DD:DD` (ASCII digits), if any.
pub open spec fn timestamp_of(t: Seq<u8>) -> Option<Timestamp> {
    scan_from(t, 0)
}

pub open spec fn pow10(n: nat) -> nat
    decreases n,
{
    if n == 0 {
        1
    } else {
        10 * pow10((n - 1) as nat)
    }
}

fn read_number(t: &[u8], p: usize, len: usize) -> (r: u32)
    requires
        len <= 4,
        p + len <= t@.len(),
        forall|k: int| 0 <= k < len ==> is_ascii_digit(#[trigger] t@[p + k]),
    ensures
        r as nat == digits_value(t@, p as int, len as nat),
{
    let n = t.len();
    let mut v: u32 = 0;
    let mut k: usize = 0;
    assert(pow10(4) == 10000) by {
        reveal_with_fuel(pow10, 5);
    }
    while k < len
        invariant
            n == t@.len(),
            k <= len <= 4,
            p + len <= t@.len(),
            forall|k: int| 0 <= k < len ==> is_ascii_digit(#[trigger] t@[p + k]),
            v as nat == digits_value(t@, p as int, k as nat),
            v < pow10(k as nat),
            pow10(4) == 10000,
        decreases len - k,
    {
        let d = t[p + k];
        assert(is_ascii_digit(t@[p + k]));
        let ghost old_v = v;
        assert(v * 10 + (d - 48) < 10 * pow10(k as nat)) by (nonlinear_arith)
            requires
                v < pow10(k as nat),
                d - 48 < 10,
                d >= 48,
        ;
        assert(pow10((k + 1) as nat) == 10 * pow10(k as nat));
        assert(pow10(k as nat) <= 1000) by {
            reveal_with_fuel(pow10, 5);
        }
        v = v * 10 + (d - 48) as u32;
        k = k + 1;
    }
    v
}

proof fn lemma_field_digits(t: Seq<u8>, p: int, off: int, len: int)
    requires
        stamp_at(t, p),
        (off == 0 && len == 4) || ((off == 5 || off == 8 || off == 11 || off == 14 || off == 17)
            && len == 2),
    ensures
        forall|k: int| 0 <= k < len ==> is_ascii_digit(#[trigger] t[(p + off) + k]),
{
    assert forall|k: int| 0 <= k < len implies is_ascii_digit(#[trigger] t[(p + off) + k]) by {
        assert(fits_shape(off + k, t[p + (off + k)]));
        assert((p + off) + k == p + (off + k));
    }
}

fn stamp_at_exec(t: &[u8], p: usize) -> (r: bool)
    requires
        p + 19 <= t@.len(),
    ensures
        r == stamp_at(t@, p as int),
{
    let n = t.len();
    let mut k: usize = 0;
    while k < STAMP_LEN
        invariant
            n == t@.len(),
            p + 19 <= t@.len(),
            k <= 19,
            forall|j: int| 0 <= j < k ==> #[trigger] fits_shape(j, t@[p + j]),
        decreases 19 - k,
    {
        let b = t[p + k];
        let ok = if k == 4 || k == 7 || k == 13 || k == 16 {
            b == 58
        } else if k == 10 {
            b == 32
        } else {
            48 <= b && b <= 57
        };
        if !ok {
            assert(!fits_shape(k as int, t@[p + k]));
            return false;
        }
        k = k + 1;
    }
    true
}

/// Reads the capture time from a metadata field value such as
/// `2020:01:02 03:04:05`: the leftmost part of `tag` in that shape, with the
/// numbers taken as written (no calendar check). `None` where no part fits.
pub fn parse_timestamp(tag: &[u8]) -> (r: Option<Timestamp>)
    ensures
        r == timestamp_of(tag@),
{
    let n = tag.len();
    if n < STAMP_LEN {
        return None;
    }
    let last = n - STAMP_LEN;
    let mut p: usize = 0;
    while p <= last
        invariant
            n == tag@.len(),
            last + 19 == tag@.len(),
            scan_from(tag@, p as int) == timestamp_of(tag@),
        decreases last + 1 - p,
    {
        if stamp_at_exec(tag, p) {
            proof {
                lemma_field_digits(tag@, p as int, 0, 4);
                assert forall|k: int| 0 <= k < 4 implies is_ascii_digit(#[trigger] tag@[p + k]) by {
                    assert((p + 0) + k == p + k);
                }
                lemma_field_digits(tag@, p as int, 5, 2);
                lemma_field_digits(tag@, p as int, 8, 2);
                lemma_field_digits(tag@, p as int, 11, 2);
                lemma_field_digits(tag@, p as int, 14, 2);
                lemma_field_digits(tag@, p as int, 17, 2);
            }
            let ts = Timestamp {
                year: read_number(tag, p, 4),
                month: read_number(tag, p + 5, 2),
                day: read_number(tag, p + 8, 2),
                hour: read_number(tag, p + 11, 2),
                minute: read_number(tag, p + 14, 2),
                second: read_number(tag, p + 17, 2),
            };
            return Some(ts);
        }
        p = p + 1;
    }
    None
}

} // verus!
