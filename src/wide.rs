use vstd::prelude::*;

verus! {

/// `2^64`.
pub open spec fn base64() -> int {
    18446744073709551616
}

/// The value of a 256-bit number held as `(high, low)` halves of 128 bits.
pub open spec fn wide_value(w: (u128, u128)) -> int {
    w.0 * (base64() * base64()) + w.1
}

/// The full product of two 128-bit numbers.
pub fn mul_wide(a: u128, b: u128) -> (r: (u128, u128))
    ensures
        wide_value(r) == a * b,
{
    let m: u128 = 18446744073709551616;
    let a0 = a % m;
    let a1 = a / m;
    let b0 = b % m;
    let b1 = b / m;
    assert(a == a1 * m + a0 && b == b1 * m + b0);
    assert(a0 * b0 <= (m - 1) * (m - 1)) by (nonlinear_arith)
        requires a0 < m, b0 < m;
    assert(a0 * b1 <= (m - 1) * (m - 1)) by (nonlinear_arith)
        requires a0 < m, b1 < m;
    assert(a1 * b0 <= (m - 1) * (m - 1)) by (nonlinear_arith)
        requires a1 < m, b0 < m;
    assert(a1 * b1 <= (m - 1) * (m - 1)) by (nonlinear_arith)
        requires a1 < m, b1 < m;
    let p00 = a0 * b0;
    let p01 = a0 * b1;
    let p10 = a1 * b0;
    let p11 = a1 * b1;
    assert(a * b == p11 * (m * m) + (p01 + p10) * m + p00) by (nonlinear_arith)
        requires a == a1 * m + a0, b == b1 * m + b0, p00 == a0 * b0, p01 == a0 * b1,
            p10 == a1 * b0, p11 == a1 * b1;
    let mid = p00 / m + p01 % m + p10 % m;
    assert(p00 / m <= m - 2) by (nonlinear_arith)
        requires p00 <= (m - 1) * (m - 1), m == 18446744073709551616;
    assert(p01 / m <= m - 2) by (nonlinear_arith)
        requires p01 <= (m - 1) * (m - 1), m == 18446744073709551616;
    assert(p10 / m <= m - 2) by (nonlinear_arith)
        requires p10 <= (m - 1) * (m - 1), m == 18446744073709551616;
    let lo = p00 % m + (mid % m) * m;
    let hi = p11 + p01 / m + p10 / m + mid / m;
    assert(p00 == (p00 / m) * m + p00 % m);
    assert(p01 == (p01 / m) * m + p01 % m);
    assert(p10 == (p10 / m) * m + p10 % m);
    assert(mid == (mid / m) * m + mid % m);
    assert(hi * (m * m) + lo == a * b) by (nonlinear_arith)
        requires hi == p11 + p01 / m + p10 / m + mid / m, lo == p00 % m + (mid % m) * m,
            mid == p00 / m + p01 % m + p10 % m, p00 == (p00 / m) * m + p00 % m,
            p01 == (p01 / m) * m + p01 % m, p10 == (p10 / m) * m + p10 % m,
            mid == (mid / m) * m + mid % m,
            a * b == p11 * (m * m) + (p01 + p10) * m + p00;
    (hi, lo)
}

/// Whether one 256-bit number is below another.
pub fn wide_lt(a: (u128, u128), b: (u128, u128)) -> (r: bool)
    ensures
        r == (wide_value(a) < wide_value(b)),
{
    let ghost big = base64() * base64();
    assert(big == u128::MAX as int + 1);
    if a.0 < b.0 {
        assert(wide_value(a) < wide_value(b)) by (nonlinear_arith)
            requires a.0 < b.0, 0 <= a.1 < big, 0 <= b.1, big > 0,
                wide_value(a) == a.0 * big + a.1, wide_value(b) == b.0 * big + b.1;
        true
    } else if a.0 > b.0 {
        assert(wide_value(b) < wide_value(a)) by (nonlinear_arith)
            requires b.0 < a.0, 0 <= b.1 < big, 0 <= a.1, big > 0,
                wide_value(a) == a.0 * big + a.1, wide_value(b) == b.0 * big + b.1;
        false
    } else {
        a.1 < b.1
    }
}

} // verus!
