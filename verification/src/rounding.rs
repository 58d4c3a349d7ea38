//! Rounding a quotient to the nearest whole number, as needed to show
//! hundredths of a degree in tenths.

use vstd::prelude::*;
use vstd::arithmetic::div_mod::{
    lemma_div_is_ordered,
    lemma_fundamental_div_mod,
    lemma_fundamental_div_mod_converse,
};

verus! {

/// `n / d` rounded to the nearest whole number; a quotient half-way
/// between two goes to the even one.
pub open spec fn nearest(n: nat, d: nat) -> nat
    recommends
        d > 0,
{
    let q = n / d;
    let r = n % d;
    if 2 * r < d {
        q
    } else if 2 * r > d {
        q + 1
    } else if q % 2 == 0 {
        q
    } else {
        q + 1
    }
}

/// `n / d` rounded to the nearest whole number, for either sign of `n`:
/// the magnitude is rounded and the sign kept.
pub open spec fn rounded(n: int, d: int) -> int
    recommends
        d > 0,
{
    if n < 0 {
        -(nearest((-n) as nat, d as nat) as int)
    } else {
        nearest(n as nat, d as nat) as int
    }
}

/// Rounding differs from the exact quotient by half a unit at most.
pub proof fn lemma_nearest_close(n: nat, d: nat)
    requires
        d > 0,
    ensures
        2 * n - d <= 2 * d * nearest(n, d) <= 2 * n + d,
{
    lemma_fundamental_div_mod(n as int, d as int);
    let q = (n / d) as int;
    let r = (n % d) as int;
    assert(2 * d * (q + 1) == 2 * (d * q) + 2 * d && 2 * d * q == 2 * (d * q))
        by (nonlinear_arith);
}

/// A whole quotient is left as it is.
pub proof fn lemma_rounded_exact(q: int, d: int)
    requires
        d > 0,
    ensures
        rounded(q * d, d) == q,
{
    if q >= 0 {
        assert(q * d >= 0) by (nonlinear_arith)
            requires
                q >= 0,
                d > 0,
        ;
        lemma_fundamental_div_mod_converse(q * d, d, q, 0);
    } else {
        assert(-(q * d) == (-q) * d && (-q) * d > 0) by (nonlinear_arith)
            requires
                q < 0,
                d > 0,
        ;
        lemma_fundamental_div_mod_converse((-q) * d, d, -q, 0);
    }
}

/// Rounding keeps the order of the numerators.
pub proof fn lemma_nearest_monotone(a: nat, b: nat, d: nat)
    requires
        d > 0,
        a <= b,
    ensures
        nearest(a, d) <= nearest(b, d),
{
    lemma_div_is_ordered(a as int, b as int, d as int);
    lemma_fundamental_div_mod(a as int, d as int);
    lemma_fundamental_div_mod(b as int, d as int);
    let qa = (a / d) as int;
    let qb = (b / d) as int;
    if qa == qb {
        assert(d * qa == d * qb);
    }
}

/// Rounding keeps the order of the numerators, whatever their signs.
pub proof fn lemma_rounded_monotone(a: int, b: int, d: int)
    requires
        d > 0,
        a <= b,
    ensures
        rounded(a, d) <= rounded(b, d),
{
    if a < 0 && b < 0 {
        lemma_nearest_monotone((-b) as nat, (-a) as nat, d as nat);
    } else if a >= 0 {
        lemma_nearest_monotone(a as nat, b as nat, d as nat);
    }
}

/// Rounding does not change when numerator and denominator are scaled
/// alike.
pub proof fn lemma_nearest_scale(n: nat, d: nat, c: nat)
    requires
        d > 0,
        c > 0,
    ensures
        nearest(n * c, d * c) == nearest(n, d),
{
    lemma_fundamental_div_mod(n as int, d as int);
    let q = (n / d) as int;
    let r = (n % d) as int;
    assert(n * c == q * (d * c) + r * c && 0 <= r * c < d * c && d * c > 0) by (nonlinear_arith)
        requires
            n == d * q + r,
            0 <= r < d,
            c > 0,
    ;
    lemma_fundamental_div_mod_converse((n * c) as int, (d * c) as int, q, r * c);
    assert((2 * (r * c) < d * c <==> 2 * r < d) && (2 * (r * c) > d * c <==> 2 * r > d))
        by (nonlinear_arith)
        requires
            c > 0,
    ;
}

/// Rounding does not change when numerator and denominator are scaled
/// alike, whatever the sign of the numerator.
pub proof fn lemma_rounded_scale(n: int, d: int, c: int)
    requires
        d > 0,
        c > 0,
    ensures
        rounded(n * c, d * c) == rounded(n, d),
{
    assert(d * c > 0 && (n < 0 ==> n * c < 0 && -(n * c) == (-n) * c) && (n >= 0 ==> n * c >= 0))
        by (nonlinear_arith)
        requires
            d > 0,
            c > 0,
    ;
    if n < 0 {
        lemma_nearest_scale((-n) as nat, d as nat, c as nat);
    } else {
        lemma_nearest_scale(n as nat, d as nat, c as nat);
    }
}

/// A mean that lies between two bounds is rounded to between the rounded
/// bounds: from `count * low <= total <= count * high` it follows that
/// `low / d`, `total / (d * count)` and `high / d` round in this order.
pub proof fn lemma_rounded_mean_between(low: int, high: int, total: int, count: int, d: int)
    requires
        d > 0,
        count > 0,
        count * low <= total <= count * high,
    ensures
        rounded(low, d) <= rounded(total, d * count) <= rounded(high, d),
{
    lemma_rounded_scale(low, d, count);
    lemma_rounded_scale(high, d, count);
    assert(low * count == count * low && high * count == count * high && d * count > 0)
        by (nonlinear_arith)
        requires
            d > 0,
            count > 0,
    ;
    lemma_rounded_monotone(low * count, total, d * count);
    lemma_rounded_monotone(total, high * count, d * count);
}

/// Rounds `n / d` to the nearest whole number, a tie to the even one.
pub fn round_nearest(n: i128, d: u128) -> (r: i128)
    requires
        d > 0,
        n > i128::MIN,
    ensures
        r == rounded(n as int, d as int),
{
    let negative = n < 0;
    let m: u128 = if negative { (-n) as u128 } else { n as u128 };
    let q = m / d;
    let rest = m % d;
    let up = if rest > d - rest {
        true
    } else if rest < d - rest {
        false
    } else {
        q % 2 == 1
    };
    proof {
        lemma_fundamental_div_mod(m as int, d as int);
        assert(q <= m && (d >= 2 ==> 2 * q <= m)) by (nonlinear_arith)
            requires
                m == d * q + rest,
                d >= 1,
                rest >= 0,
                q >= 0,
        ;
    }
    let magnitude: u128 = if up { q + 1 } else { q };
    if negative {
        -(magnitude as i128)
    } else {
        magnitude as i128
    }
}

} // verus!
