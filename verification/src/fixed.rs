//! Fixed-point scalar arithmetic for the solver.
//!
//! Every physical quantity (field value, timestep, rate, coefficient) is a
//! signed 64-bit integer counting ticks of size `1/ONE`.  All operations
//! round toward negative infinity, so each executable helper is pinned to a
//! single mathematical expression over `int`.

use vstd::prelude::*;
use vstd::arithmetic::div_mod::{
    lemma_fundamental_div_mod, lemma_fundamental_div_mod_converse,
};

verus! {

/// Number of raw ticks that represent the value one.
pub const ONE: i64 = 16777216;

/// Raw representation of one half.
pub const HALF: i64 = 8388608;

/// Magnitude cap under which every field value is kept: large enough for any
/// simulation of interest, small enough that each arithmetic step fits the
/// machine word.
pub const VLIM: i64 = 0x4000000000000000;

/// Floor of the real product of two fixed-point values.
pub open spec fn fmul(a: int, b: int) -> int {
    (a * b) / (ONE as int)
}

/// Floor of the real quotient of two fixed-point values.
pub open spec fn fdiv(a: int, b: int) -> int {
    (a * (ONE as int)) / b
}

/// `v` clamped to the closed interval `[lo, hi]`.
pub open spec fn clamp_spec(v: int, lo: int, hi: int) -> int {
    if v < lo {
        lo
    } else if v > hi {
        hi
    } else {
        v
    }
}

/// Division rounding toward negative infinity, which for a positive divisor
/// coincides with the Euclidean quotient that `int` division denotes.
pub fn floor_div_i128(a: i128, b: i128) -> (r: i128)
    requires
        b > 0,
        -0x20000000000000000000000000000000 <= a <= 0x20000000000000000000000000000000,
    ensures
        r == a as int / b as int,
{
    let q: i128 = a / b;
    if a >= 0 {
        q
    } else {
        proof {
            lemma_fundamental_div_mod(-a, b as int);
            assert(((-a) / (b as int)) * b <= -a) by (nonlinear_arith)
                requires
                    b > 0,
                    -a == b * ((-a) / (b as int)) + (-a) % (b as int),
                    0 <= (-a) % (b as int),
            ;
            assert(0 <= ((-a) / (b as int))) by (nonlinear_arith)
                requires
                    b > 0,
                    -a >= 0,
                    -a == b * ((-a) / (b as int)) + (-a) % (b as int),
                    (-a) % (b as int) < b,
            ;
            assert(a as int <= (q as int) * (b as int) <= 0) by (nonlinear_arith)
                requires
                    b > 0,
                    q == -((-a) / (b as int)),
                    0 <= ((-a) / (b as int)),
                    ((-a) / (b as int)) * b <= -a,
            ;
        }
        let p: i128 = q * b;
        if p == a {
            proof {
                lemma_fundamental_div_mod_converse(a as int, b as int, q as int, 0);
            }
            q
        } else {
            proof {
                lemma_fundamental_div_mod(-a, b as int);
                let m = (-a) % (b as int);
                assert(a == (q - 1) * b + (b - m)) by (nonlinear_arith)
                    requires
                        q == -((-a) / (b as int)),
                        -a == b * ((-a) / (b as int)) + m,
                ;
                assert(m == 0 ==> a == q * b) by (nonlinear_arith)
                    requires
                        q == -((-a) / (b as int)),
                        -a == b * ((-a) / (b as int)) + m,
                ;
                assert(m != 0);
                lemma_fundamental_div_mod_converse(a as int, b as int, q as int - 1, b - m);
            }
            q - 1
        }
    }
}

/// Fixed-point product: computes `fmul` exactly on machine integers.
pub fn fx_mul(a: i64, b: i64) -> (r: i64)
    requires
        -0x2000000000000000000000 <= a as int * b as int <= 0x2000000000000000000000,
    ensures
        r == fmul(a as int, b as int),
        fmul(a as int, b as int) * (ONE as int) <= a as int * b as int,
        (a as int * b as int) < fmul(a as int, b as int) * (ONE as int) + ONE as int,
{
    let p: i128 = (a as i128) * (b as i128);
    let q: i128 = floor_div_i128(p, ONE as i128);
    proof {
        lemma_fundamental_div_mod(p as int, ONE as int);
    }
    q as i64
}

/// Fixed-point quotient by a divisor of at least one: computes `fdiv` exactly.
pub fn fx_div(a: i64, c: i64) -> (r: i64)
    requires
        c >= ONE,
        -0x4000000000000000 <= a <= 0x4000000000000000,
    ensures
        r == fdiv(a as int, c as int),
        c as int * fdiv(a as int, c as int) <= a as int * (ONE as int),
        (a as int * (ONE as int)) < c as int * fdiv(a as int, c as int) + c as int,
{
    proof {
        assert(-0x20000000000000000000000000000000 <= a as int * (ONE as int)
            <= 0x20000000000000000000000000000000) by (nonlinear_arith)
            requires
                ONE == 16777216i64,
                -0x4000000000000000 <= a <= 0x4000000000000000,
        ;
    }
    let p: i128 = (a as i128) * (ONE as i128);
    let q: i128 = floor_div_i128(p, c as i128);
    proof {
        lemma_fundamental_div_mod(p as int, c as int);
        assert(-(a as int) - 1 <= q <= a as int + 1 || a as int - 1 <= q <= -(a as int) + 1)
            by (nonlinear_arith)
            requires
                c as int >= ONE as int,
                ONE as int > 0,
                p == a as int * (ONE as int),
                p == c as int * q + (p as int) % (c as int),
                0 <= (p as int) % (c as int) < c as int,
        ;
    }
    q as i64
}

/// Floor of the mean of two values; the result lies between them.
pub fn avg_floor(v1: i64, v2: i64) -> (r: i64)
    ensures
        r == (v1 as int + v2 as int) / 2,
{
    let s: i128 = (v1 as i128) + (v2 as i128);
    let q: i128 = floor_div_i128(s, 2);
    proof {
        lemma_fundamental_div_mod(s as int, 2);
    }
    q as i64
}

} // verus!
