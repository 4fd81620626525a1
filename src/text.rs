use vstd::prelude::*;
use vstd::string::{StrSliceExecFns, StringExecFns};

verus! {

/// The characters used for digits, up to base sixteen.
pub open spec fn digit_chars() -> Seq<char> {
    "0123456789abcdef"@
}

pub open spec fn digit_char(d: nat) -> char {
    digit_chars()[d as int]
}

/// Decimal notation of a natural number, without leading zeros.
pub open spec fn decimal(n: nat) -> Seq<char>
    decreases n,
{
    if n < 10 {
        seq![digit_char(n)]
    } else {
        decimal(n / 10).push(digit_char(n % 10))
    }
}

/// Two lower-case hexadecimal digits of a byte.
pub open spec fn hex_byte(b: u8) -> Seq<char> {
    seq![digit_char((b / 16) as nat), digit_char((b % 16) as nat)]
}

/// Decimal notation of `v / 10^places`, written with exactly `places` fraction digits.
pub open spec fn fixed_point(v: int, places: nat) -> Seq<char> {
    let sign = if v < 0 { seq!['-'] } else { Seq::<char>::empty() };
    let m = if v < 0 { -v } else { v };
    let unit = pow10(places);
    if places == 0 {
        sign + decimal(m as nat)
    } else {
        sign + decimal((m / unit) as nat) + seq!['.'] + padded(((m % unit) as nat), places)
    }
}

pub open spec fn pow10(n: nat) -> int
    decreases n,
{
    if n == 0 {
        1
    } else {
        10 * pow10((n - 1) as nat)
    }
}

/// The `width` lowest decimal digits of `n`, with leading zeros.
pub open spec fn padded(n: nat, width: nat) -> Seq<char>
    decreases width,
{
    if width == 0 {
        Seq::empty()
    } else {
        padded(n / 10, (width - 1) as nat).push(digit_char(n % 10))
    }
}

fn digit_str(d: u64) -> (s: &'static str)
    requires
        d < 16,
    ensures
        s@ == seq![digit_char(d as nat)],
{
    let all: &'static str = "0123456789abcdef";
    proof {
        reveal_strlit("0123456789abcdef");
    }
    let s = all.substring_char(d as usize, (d + 1) as usize);
    assert(s@ =~= seq![digit_char(d as nat)]);
    s
}

/// Appends the decimal notation of `n`.
pub fn push_decimal(out: &mut String, n: u64)
    ensures
        final(out)@ == old(out)@ + decimal(n as nat),
    decreases n,
{
    if n < 10 {
        let s = digit_str(n);
        out.append(s);
    } else {
        push_decimal(out, n / 10);
        let s = digit_str(n % 10);
        out.append(s);
        assert(final(out)@ =~= old(out)@ + decimal(n as nat));
    }
}

/// Appends the `width` lowest decimal digits of `n`, with leading zeros.
pub fn push_padded(out: &mut String, n: u64, width: u64)
    ensures
        final(out)@ == old(out)@ + padded(n as nat, width as nat),
    decreases width,
{
    if width > 0 {
        push_padded(out, n / 10, width - 1);
        let s = digit_str(n % 10);
        out.append(s);
        assert(final(out)@ =~= old(out)@ + padded(n as nat, width as nat));
    }
}

/// Appends two lower-case hexadecimal digits of `b`.
pub fn push_hex_byte(out: &mut String, b: u8)
    ensures
        final(out)@ == old(out)@ + hex_byte(b),
{
    let hi = digit_str((b / 16) as u64);
    out.append(hi);
    let lo = digit_str((b % 16) as u64);
    out.append(lo);
    assert(final(out)@ =~= old(out)@ + hex_byte(b));
}

/// Appends `v / 10^places` with exactly `places` fraction digits.
pub fn push_fixed_point(out: &mut String, v: i64, places: u64)
    requires
        v > i64::MIN,
        places <= 3,
    ensures
        final(out)@ == old(out)@ + fixed_point(v as int, places as nat),
{
    let ghost start = out@;
    if v < 0 {
        out.append("-");
        proof {
            reveal_strlit("-");
        }
    }
    let m: u64 = if v < 0 { (-v) as u64 } else { v as u64 };
    let unit = pow10_exec(places);
    let ghost sign = if v < 0 { seq!['-'] } else { Seq::<char>::empty() };
    assert(out@ =~= start + sign);
    if places == 0 {
        proof { assert(unit == 1); }
        push_decimal(out, m);
        assert(out@ =~= start + fixed_point(v as int, places as nat));
    } else {
        push_decimal(out, m / unit);
        out.append(".");
        proof {
            reveal_strlit(".");
        }
        push_padded(out, m % unit, places);
        assert(out@ =~= start + fixed_point(v as int, places as nat));
    }
}

fn pow10_exec(n: u64) -> (r: u64)
    requires
        n <= 3,
    ensures
        r as int == pow10(n as nat),
        r >= 1,
{
    let mut r: u64 = 1;
    let mut i: u64 = 0;
    while i < n
        invariant
            i <= n <= 3,
            r as int == pow10(i as nat),
            1 <= r <= 1000,
            i == 0 ==> r == 1,
            i == 1 ==> r == 10,
            i == 2 ==> r == 100,
            i == 3 ==> r == 1000,
        decreases n - i,
    {
        proof {
            reveal_with_fuel(pow10, 4);
        }
        r = r * 10;
        i = i + 1;
    }
    r
}

} // verus!
