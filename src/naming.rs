//! Destination file names: the candidate name of a capture time and the
//! slots that disambiguate photos sharing it.
use vstd::prelude::*;
use crate::timestamp::Timestamp;

verus! {

/// The character of a decimal digit.
pub open spec fn digit_char(d: nat) -> char {
    if d == 0 {
        '0'
    } else if d == 1 {
        '1'
    } else if d == 2 {
        '2'
    } else if d == 3 {
        '3'
    } else if d == 4 {
        '4'
    } else if d == 5 {
        '5'
    } else if d == 6 {
        '6'
    } else if d == 7 {
        '7'
    } else if d == 8 {
        '8'
    } else {
        '9'
    }
}

/// The decimal digits of `n`, without leading zeros (`0` is written `"0"`).
pub open spec fn decimal(n: nat) -> Seq<char>
    decreases n,
{
    if n < 10 {
        seq![digit_char(n)]
    } else {
        decimal(n / 10).push(digit_char(n % 10))
    }
}

/// `n` in decimal, left-padded with zeros to at least `width` characters.
pub open spec fn padded(n: nat, width: nat) -> Seq<char> {
    let digits = decimal(n);
    if digits.len() >= width {
        digits
    } else {
        Seq::new((width - digits.len()) as nat, |i: int| '0') + digits
    }
}

/// `YYYY-MM-DD_HH_MM_SS` for a capture time.
pub open spec fn candidate_spec(ts: Timestamp) -> Seq<char> {
    padded(ts.year as nat, 4) + seq!['-'] + padded(ts.month as nat, 2) + seq!['-'] + padded(
        ts.day as nat,
        2,
    ) + seq!['_'] + padded(ts.hour as nat, 2) + seq!['_'] + padded(ts.minute as nat, 2) + seq![
        '_',
    ] + padded(ts.second as nat, 2)
}

pub open spec fn jpeg_suffix() -> Seq<char> {
    seq!['.', 'j', 'p', 'e', 'g']
}

/// The file name of slot `index` for a candidate name: `<base>.jpeg` for the
/// first slot, `<base>-<index>.jpeg` for the others.
pub open spec fn slot_spec(base: Seq<char>, index: nat) -> Seq<char> {
    if index == 0 {
        base + jpeg_suffix()
    } else {
        base + seq!['-'] + decimal(index) + jpeg_suffix()
    }
}

proof fn lemma_decimal_nonempty(n: nat)
    ensures
        decimal(n).len() >= 1,
    decreases n,
{
    if n >= 10 {
        lemma_decimal_nonempty(n / 10);
    }
}

proof fn lemma_digit_injective(d: nat, e: nat)
    requires
        d < 10,
        e < 10,
        digit_char(d) == digit_char(e),
    ensures
        d == e,
{
    assert(digit_char(d) as u32 == 48 + d) by {
        assert(d == 0 || d == 1 || d == 2 || d == 3 || d == 4 || d == 5 || d == 6 || d == 7 || d == 8 || d == 9);
    }
    assert(digit_char(e) as u32 == 48 + e) by {
        assert(e == 0 || e == 1 || e == 2 || e == 3 || e == 4 || e == 5 || e == 6 || e == 7 || e == 8 || e == 9);
    }
}

/// Different numbers have different decimal forms.
pub proof fn lemma_decimal_injective(n: nat, m: nat)
    requires
        decimal(n) == decimal(m),
    ensures
        n == m,
    decreases n,
{
    if n < 10 && m < 10 {
        assert(decimal(n) == seq![digit_char(n)]);
        assert(decimal(m) == seq![digit_char(m)]);
        assert(seq![digit_char(n)][0] == digit_char(n));
        assert(seq![digit_char(m)][0] == digit_char(m));
        lemma_digit_injective(n, m);
    } else if n < 10 {
        lemma_decimal_nonempty(m / 10);
        assert(decimal(m).len() >= 2);
        assert(decimal(n).len() == 1);
    } else if m < 10 {
        lemma_decimal_nonempty(n / 10);
        assert(decimal(n).len() >= 2);
        assert(decimal(m).len() == 1);
    } else {
        let dn = decimal(n);
        let dm = decimal(m);
        assert(dn.last() == dm.last());
        lemma_digit_injective(n % 10, m % 10);
        assert(dn.drop_last() =~= decimal(n / 10));
        assert(dm.drop_last() =~= decimal(m / 10));
        lemma_decimal_injective(n / 10, m / 10);
        assert(n == 10 * (n / 10) + n % 10);
        assert(m == 10 * (m / 10) + m % 10);
    }
}

/// Different slots of one candidate name have different file names.
pub proof fn lemma_slot_injective(base: Seq<char>, i: nat, j: nat)
    requires
        slot_spec(base, i) == slot_spec(base, j),
    ensures
        i == j,
{
    if i != 0 && j != 0 {
        let si = slot_spec(base, i);
        let sj = slot_spec(base, j);
        let lo = base.len() as int + 1;
        assert(si == base + seq!['-'] + decimal(i) + jpeg_suffix());
        assert(sj == base + seq!['-'] + decimal(j) + jpeg_suffix());
        assert(si.len() == base.len() + 1 + decimal(i).len() + 5);
        assert(sj.len() == base.len() + 1 + decimal(j).len() + 5);
        assert(decimal(i).len() == decimal(j).len());
        assert(si.subrange(lo, lo + decimal(i).len() as int) =~= decimal(i));
        assert(sj.subrange(lo, lo + decimal(j).len() as int) =~= decimal(j));
        lemma_decimal_injective(i, j);
    } else if i != 0 {
        lemma_decimal_nonempty(i);
        assert(slot_spec(base, i).len() == base.len() + 1 + decimal(i).len() + 5);
        assert(slot_spec(base, j).len() == base.len() + 5);
    } else if j != 0 {
        lemma_decimal_nonempty(j);
        assert(slot_spec(base, j).len() == base.len() + 1 + decimal(j).len() + 5);
        assert(slot_spec(base, i).len() == base.len() + 5);
    }
}

fn push_digit(s: &mut String, d: u64)
    requires
        d < 10,
    ensures
        final(s)@ == old(s)@.push(digit_char(d as nat)),
{
    proof {
        reveal_strlit("0");
        reveal_strlit("1");
        reveal_strlit("2");
        reveal_strlit("3");
        reveal_strlit("4");
        reveal_strlit("5");
        reveal_strlit("6");
        reveal_strlit("7");
        reveal_strlit("8");
        reveal_strlit("9");
    }
    let t: &str = if d == 0 {
        "0"
    } else if d == 1 {
        "1"
    } else if d == 2 {
        "2"
    } else if d == 3 {
        "3"
    } else if d == 4 {
        "4"
    } else if d == 5 {
        "5"
    } else if d == 6 {
        "6"
    } else if d == 7 {
        "7"
    } else if d == 8 {
        "8"
    } else {
        "9"
    };
    s.append(t);
}

fn push_decimal(s: &mut String, n: u64)
    ensures
        final(s)@ == old(s)@ + decimal(n as nat),
    decreases n,
{
    if n >= 10 {
        push_decimal(s, n / 10);
        push_digit(s, n % 10);
        assert(final(s)@ =~= old(s)@ + decimal(n as nat));
    } else {
        push_digit(s, n);
        assert(final(s)@ =~= old(s)@ + decimal(n as nat));
    }
}

fn decimal_len(n: u64) -> (r: u64)
    ensures
        r as nat == decimal(n as nat).len(),
        r as int <= n as int / 10 + 1,
    decreases n,
{
    if n >= 10 {
        let k = decimal_len(n / 10);
        k + 1
    } else {
        1
    }
}

fn push_padded(s: &mut String, n: u64, width: u64)
    ensures
        final(s)@ == old(s)@ + padded(n as nat, width as nat),
{
    let len = decimal_len(n);
    let mut k: u64 = len;
    proof {
        reveal_strlit("0");
    }
    let ghost start = s@;
    while k < width
        invariant
            len as nat == decimal(n as nat).len(),
            len <= k,
            k <= width || k == len,
            s@ == start + Seq::new((k - len) as nat, |i: int| '0'),
        decreases width - k,
    {
        proof {
            reveal_strlit("0");
        }
        s.append("0");
        k = k + 1;
        assert(s@ =~= start + Seq::new((k - len) as nat, |i: int| '0'));
    }
    push_decimal(s, n);
    if len >= width {
        assert(s@ =~= start + padded(n as nat, width as nat));
    } else {
        assert(s@ =~= start + padded(n as nat, width as nat));
    }
}

fn push_literal(s: &mut String, t: &str)
    ensures
        final(s)@ == old(s)@ + t@,
{
    s.append(t);
}

/// The candidate name of a capture time: `YYYY-MM-DD_HH_MM_SS`, each field
/// zero-padded to four digits for the year and two for the others.
pub fn candidate_name(ts: &Timestamp) -> (r: String)
    ensures
        r@ == candidate_spec(*ts),
{
    proof {
        reveal_strlit("-");
        reveal_strlit("_");
    }
    let mut s = String::new();
    push_padded(&mut s, ts.year as u64, 4);
    push_literal(&mut s, "-");
    push_padded(&mut s, ts.month as u64, 2);
    push_literal(&mut s, "-");
    push_padded(&mut s, ts.day as u64, 2);
    push_literal(&mut s, "_");
    push_padded(&mut s, ts.hour as u64, 2);
    push_literal(&mut s, "_");
    push_padded(&mut s, ts.minute as u64, 2);
    push_literal(&mut s, "_");
    push_padded(&mut s, ts.second as u64, 2);
    assert(s@ =~= candidate_spec(*ts));
    s
}

/// The file name of disambiguation slot `index` for the candidate name `base`.
pub fn slot_name(base: &str, index: u64) -> (r: String)
    ensures
        r@ == slot_spec(base@, index as nat),
{
    proof {
        reveal_strlit("-");
        reveal_strlit(".jpeg");
    }
    let mut s = String::new();
    push_literal(&mut s, base);
    if index != 0 {
        push_literal(&mut s, "-");
        push_decimal(&mut s, index);
    }
    push_literal(&mut s, ".jpeg");
    assert(s@ =~= slot_spec(base@, index as nat));
    s
}

} // verus!
