//! Fixed-point arithmetic for sensitivities and eDPI values.
//!
//! A sensitivity is held as a whole number of millionths, so that its
//! product with a DPI value is an exact integer. A converted sensitivity is
//! rounded to three decimal places and held as a whole number of thousandths.

use vstd::prelude::*;

verus! {

/// Fixed-point units in one whole sensitivity (and in one whole eDPI).
pub const SCALE: i64 = 1_000_000;

/// Fixed-point units in one thousandth.
pub const UNITS_PER_THOUSANDTH: i128 = 1_000;

/// Absolute value of a mathematical integer.
pub open spec fn magnitude(x: int) -> nat {
    if x < 0 {
        (-x) as nat
    } else {
        x as nat
    }
}

/// The quotient `num / den` rounded to the nearest integer, a quotient
/// that lies half-way between two integers going to the one further
/// from zero.
pub open spec fn round_div(num: int, den: int) -> int
    recommends
        den > 0,
{
    if num >= 0 {
        (2 * num + den) / (2 * den)
    } else {
        -((2 * (-num) + den) / (2 * den))
    }
}

/// A fixed-point value rounded to three decimal places, in thousandths.
pub open spec fn thousandths_of(units: int) -> int {
    round_div(units, UNITS_PER_THOUSANDTH as int)
}

/// The eDPI of a sensitivity at a DPI value: their exact product.
pub open spec fn edpi_of(dpi: int, sens: int) -> int {
    dpi * sens
}

/// `round_div` written with the truncated quotient and its remainder: the
/// quotient is raised by one exactly when twice the remainder reaches the
/// divisor.
pub proof fn lemma_round_div_by_remainder(num: int, den: int)
    requires
        num >= 0,
        den > 0,
    ensures
        round_div(num, den) == num / den + if 2 * (num % den) >= den {
            1int
        } else {
            0int
        },
{
    let q = num / den;
    let r = num % den;
    assert(num == den * q + r && 0 <= r < den) by (nonlinear_arith)
        requires
            q == num / den,
            r == num % den,
            den > 0,
    ;
    let up: int = if 2 * r >= den {
        1
    } else {
        0
    };
    let rest = 2 * r + den - up * (2 * den);
    assert(0 <= rest < 2 * den);
    assert(2 * num + den == (q + up) * (2 * den) + rest) by (nonlinear_arith)
        requires
            num == den * q + r,
            rest == 2 * r + den - up * (2 * den),
    ;
    vstd::arithmetic::div_mod::lemma_fundamental_div_mod_converse(
        2 * num + den,
        2 * den,
        q + up,
        rest,
    );
}

/// A rounded quotient is within half a divisor of the exact one.
pub proof fn lemma_round_div_error(num: int, den: int)
    requires
        den > 0,
    ensures
        2 * magnitude(round_div(num, den) * den - num) <= den,
{
    let m: int = if num >= 0 {
        num
    } else {
        -num
    };
    lemma_round_div_by_remainder(m, den);
    let q = m / den;
    let r = m % den;
    assert(m == den * q + r && 0 <= r < den) by (nonlinear_arith)
        requires
            q == m / den,
            r == m % den,
            den > 0,
    ;
    let k = round_div(m, den);
    assert(k * den - m == (k - q) * den - r) by (nonlinear_arith)
        requires
            m == den * q + r,
    ;
    if k == q {
        assert((k - q) * den == 0) by (nonlinear_arith)
            requires
                k == q,
        ;
    } else {
        assert((k - q) * den == den) by (nonlinear_arith)
            requires
                k == q + 1,
        ;
    }
    if num < 0 {
        assert(round_div(num, den) == -k);
        assert((-k) * den - num == -(k * den - m)) by (nonlinear_arith)
            requires
                m == -num,
        ;
    }
}

/// Rounding an exact multiple of the divisor gives the multiplier back.
pub proof fn lemma_round_div_of_multiple(k: int, den: int)
    requires
        den > 0,
    ensures
        round_div(k * den, den) == k,
{
    let m: int = if k >= 0 {
        k
    } else {
        -k
    };
    assert(m * den >= 0) by (nonlinear_arith)
        requires
            m >= 0,
            den > 0,
    ;
    assert(2 * (m * den) + den == m * (2 * den) + den) by (nonlinear_arith);
    vstd::arithmetic::div_mod::lemma_fundamental_div_mod_converse(
        2 * (m * den) + den,
        2 * den,
        m,
        den,
    );
    if k >= 0 {
        assert(k * den == m * den);
    } else {
        assert(-(k * den) == m * den) by (nonlinear_arith)
            requires
                m == -k,
        ;
        if k * den >= 0 {
            assert(m * den == 0);
            assert(false) by (nonlinear_arith)
                requires
                    m * den == 0,
                    m > 0,
                    den > 0,
            ;
        }
    }
}

/// Rounding to three decimal places is stable: a value that is already a
/// whole number of thousandths is rounded to itself.
pub proof fn lemma_rounding_is_idempotent(units: int)
    ensures
        thousandths_of(1000 * thousandths_of(units)) == thousandths_of(units),
{
    let t = thousandths_of(units);
    lemma_round_div_of_multiple(t, 1000);
    assert(t * 1000 == 1000 * t);
}

/// Distance between two values, computed without overflow.
pub fn distance(a: i128, b: i128) -> (d: u128)
    ensures
        d == magnitude(a - b),
{
    if a >= b {
        if b >= 0 || a < 0 {
            (a - b) as u128
        } else {
            (a as u128) + ((-(b + 1)) as u128) + 1
        }
    } else {
        if a >= 0 || b < 0 {
            (b - a) as u128
        } else {
            (b as u128) + ((-(a + 1)) as u128) + 1
        }
    }
}

/// The eDPI of a sensitivity (in millionths) at a DPI value.
pub fn edpi(dpi: i32, sens: i64) -> (e: i128)
    ensures
        e == edpi_of(dpi as int, sens as int),
{
    proof {
        let d = dpi as int;
        let s = sens as int;
        assert(-0x8000_0000 * 0x8000_0000_0000_0000 <= d * s <= 0x8000_0000
            * 0x8000_0000_0000_0000) by (nonlinear_arith)
            requires
                -0x8000_0000 <= d < 0x8000_0000,
                -0x8000_0000_0000_0000 <= s < 0x8000_0000_0000_0000,
        ;
    }
    (dpi as i128) * (sens as i128)
}

/// Divides and rounds to the nearest integer, halves away from zero.
pub fn div_round(num: i128, den: i128) -> (q: i128)
    requires
        den > 0,
    ensures
        q == round_div(num as int, den as int),
{
    let negative = num < 0;
    let m: u128 = if !negative {
        num as u128
    } else if num == i128::MIN {
        0x8000_0000_0000_0000_0000_0000_0000_0000u128
    } else {
        (-num) as u128
    };
    let d: u128 = den as u128;
    let whole: u128 = m / d;
    let rest: u128 = m % d;
    let raise = rest >= d - rest;
    proof {
        lemma_round_div_by_remainder(m as int, d as int);
        assert(m as int == d * (m as int / d as int) + (m as int % d as int)) by (nonlinear_arith)
            requires
                d > 0,
        ;
        if raise {
            // the remainder is not zero, so the quotient is below the dividend
            assert(whole < m) by (nonlinear_arith)
                requires
                    m == d * whole + rest,
                    rest >= d - rest,
                    d > 0,
                    whole >= 0,
                    rest < d,
            ;
        }
        assert(whole <= m) by (nonlinear_arith)
            requires
                m == d * whole + rest,
                d > 0,
                whole >= 0,
                rest >= 0,
        ;
    }
    let rounded: u128 = if raise {
        whole + 1
    } else {
        whole
    };
    if !negative {
        rounded as i128
    } else if rounded == 0x8000_0000_0000_0000_0000_0000_0000_0000u128 {
        i128::MIN
    } else {
        -(rounded as i128)
    }
}

/// Rounds a fixed-point value to three decimal places; the result counts
/// thousandths.
pub fn round_to_thousandths(units: i128) -> (t: i128)
    ensures
        t == thousandths_of(units as int),
{
    div_round(units, UNITS_PER_THOUSANDTH)
}

} // verus!
