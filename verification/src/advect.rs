//! Semi-Lagrangian advection: each interior cell traces backward through the
//! velocity field, clamps the source point so the four-sample footprint stays
//! inside the grid, and takes the bilinear blend of the four surrounding
//! source cells.

use vstd::prelude::*;
use vstd::arithmetic::div_mod::{
    lemma_div_is_ordered, lemma_div_multiples_vanish, lemma_div_pos_is_pos,
    lemma_fundamental_div_mod, lemma_fundamental_div_mod_converse,
};
use vstd::arithmetic::mul::{lemma_mul_inequality, lemma_mul_nonnegative};
use crate::fixed::{HALF, ONE, VLIM, clamp_spec, fmul, fx_mul};
use crate::grid::{Array2DF, NMAX, at, in_range, lemma_at_bounds, lemma_grid_size,
    lemma_index_decomp};
use crate::boundary::{BoundaryKind, set_bnd, set_bnd_spec, lemma_at_inverse};
use crate::solver::{LCAP, TCAP, interior, lemma_set_bnd_interior};

verus! {

/// Cap on `dt * (n-2)`, the backward-trace scale.
pub const DTXCAP: i64 = 0x10000000000000;

/// Source coordinate of an interior cell: its own position minus the scaled
/// velocity, clamped to keep the interpolation footprint inside the grid.
pub open spec fn backtrace_spec(pos: int, dtv: int, v: int, n: int) -> int {
    clamp_spec(
        pos * (ONE as int) - fmul(dtv, v),
        HALF as int,
        (n - 2) * (ONE as int) + HALF as int,
    )
}

/// The advected value of interior cell (i, j): a bilinear blend of the four
/// source cells around the traced coordinate.
pub open spec fn adv_cell(
    s0: Seq<int>,
    sx: Seq<int>,
    sy: Seq<int>,
    n: int,
    dt: int,
    i: int,
    j: int,
) -> int {
    let dtx = dt * (n - 2);
    let xf = backtrace_spec(i, dtx, sx[at(n, i, j)], n);
    let yf = backtrace_spec(j, dtx, sy[at(n, i, j)], n);
    let i0 = xf / (ONE as int);
    let j0 = yf / (ONE as int);
    let s1 = xf - i0 * (ONE as int);
    let s0w = ONE as int - s1;
    let t1 = yf - j0 * (ONE as int);
    let t0 = ONE as int - t1;
    fmul(s0w, fmul(t0, s0[at(n, i0, j0)]) + fmul(t1, s0[at(n, i0, j0 + 1)])) + fmul(
        s1,
        fmul(t0, s0[at(n, i0 + 1, j0)]) + fmul(t1, s0[at(n, i0 + 1, j0 + 1)]),
    )
}

/// The grid before its wall pass: advected interior, borders as `sd` held.
pub open spec fn adv_field(
    sd: Seq<int>,
    s0: Seq<int>,
    sx: Seq<int>,
    sy: Seq<int>,
    n: int,
    dt: int,
) -> Seq<int> {
    Seq::new(sd.len(), |k: int|
        if interior(n, k % n, k / n) {
            adv_cell(s0, sx, sy, n, dt, k % n, k / n)
        } else {
            sd[k]
        })
}

/// The advection operator's exact outcome.
pub open spec fn advect_spec(
    b: BoundaryKind,
    sd: Seq<int>,
    s0: Seq<int>,
    sx: Seq<int>,
    sy: Seq<int>,
    n: int,
    dt: int,
) -> Seq<int> {
    set_bnd_spec(b, adv_field(sd, s0, sx, sy, n, dt), n)
}

/// A clamped source coordinate names a cell pair inside the grid.
pub proof fn lemma_backtrace_cell(xf: int, n: int)
    requires
        3 <= n,
        HALF as int <= xf <= (n - 2) * (ONE as int) + HALF as int,
    ensures
        0 <= xf / (ONE as int) <= n - 2,
        0 <= xf - (xf / (ONE as int)) * (ONE as int) < ONE as int,
{
    let one = ONE as int;
    lemma_div_pos_is_pos(xf, one);
    lemma_fundamental_div_mod(xf, one);
    assert(xf / one * one == one * (xf / one)) by (nonlinear_arith);
    assert((n - 2) * one + HALF as int <= (n - 1) * one - 1) by (nonlinear_arith)
        requires
            3 <= n,
            one == 16777216,
            HALF == 8388608i64,
    ;
    lemma_div_is_ordered(xf, (n - 1) * one - 1, one);
    assert((n - 1) * one - 1 == (n - 2) * one + (one - 1)) by (nonlinear_arith);
    lemma_fundamental_div_mod_converse((n - 1) * one - 1, one, n - 2, one - 1);
}

/// Backward trace of one coordinate, exactly `backtrace_spec`.
fn backtrace(pos: usize, dtv: i64, v: i64, n: usize) -> (r: i64)
    requires
        3 <= n <= NMAX,
        pos < n,
        0 <= dtv <= DTXCAP,
        -LCAP <= v <= LCAP,
    ensures
        r as int == backtrace_spec(pos as int, dtv as int, v as int, n as int),
        HALF as int <= r as int <= (n as int - 2) * (ONE as int) + HALF as int,
{
    proof {
        lemma_mul_inequality(v as int, LCAP as int, dtv as int);
        lemma_mul_inequality(-(LCAP as int), v as int, dtv as int);
        lemma_mul_inequality(dtv as int, DTXCAP as int, LCAP as int);
        assert(LCAP as int * dtv as int == dtv as int * LCAP as int) by (nonlinear_arith);
        assert(DTXCAP as int * LCAP as int <= 0x100000000000000000000000000)
            by (nonlinear_arith)
            requires
                DTXCAP == 0x10000000000000i64,
                LCAP == 0x10000000000000i64,
        ;
        assert((-(LCAP as int)) * dtv as int == -(LCAP as int * dtv as int))
            by (nonlinear_arith);
        assert(dtv as int * v as int == v as int * dtv as int) by (nonlinear_arith);
        vstd::arithmetic::mul::lemma_mul_upper_bound(pos as int, 4096, ONE as int,
            16777216);
        lemma_mul_nonnegative(pos as int, ONE as int);
    }
    let p: i128 = (dtv as i128) * (v as i128);
    let f: i128 = crate::fixed::floor_div_i128(p, ONE as i128);
    proof {
        lemma_fundamental_div_mod(p as int, ONE as int);
    }
    let x: i128 = (pos as i128) * (ONE as i128) - f;
    let lo: i128 = HALF as i128;
    let hi: i128 = ((n - 2) as i128) * (ONE as i128) + (HALF as i128);
    proof {
        vstd::arithmetic::mul::lemma_mul_upper_bound(n as int - 2, 4096, ONE as int, 16777216);
        lemma_mul_nonnegative(n as int - 2, ONE as int);
    }
    if x < lo {
        lo as i64
    } else if x > hi {
        hi as i64
    } else {
        x as i64
    }
}

/// Blend weight times a sample: `fmul(t, v)`, which never exceeds the
/// sample's own magnitude.
fn wmul(t: i64, v: i64) -> (r: i64)
    requires
        0 <= t <= ONE,
        -0x40000000000000 <= v <= 0x40000000000000,
    ensures
        r as int == fmul(t as int, v as int),
        v >= 0 ==> 0 <= r <= v,
        v <= 0 ==> v <= r <= 0,
{
    proof {
        lemma_mul_inequality(v as int, 0x40000000000000, t as int);
        lemma_mul_inequality(-0x40000000000000, v as int, t as int);
        lemma_mul_inequality(t as int, ONE as int, 0x40000000000000);
        assert(0x40000000000000 * t as int == t as int * 0x40000000000000)
            by (nonlinear_arith);
        assert((-0x40000000000000) * t as int == -(0x40000000000000 * t as int))
            by (nonlinear_arith);
        assert(v as int * t as int == t as int * v as int) by (nonlinear_arith);
    }
    let r = fx_mul(t, v);
    proof {
        lemma_wmul_range(t as int, v as int);
    }
    r
}

/// A blend weight in `[0, ONE]` scales a value toward zero.
pub proof fn lemma_wmul_range(t: int, v: int)
    requires
        0 <= t <= ONE as int,
    ensures
        v >= 0 ==> 0 <= fmul(t, v) <= v,
        v <= 0 ==> v <= fmul(t, v) <= 0,
{
    let one = ONE as int;
    if v >= 0 {
        lemma_mul_nonnegative(t, v);
        lemma_div_pos_is_pos(t * v, one);
        lemma_mul_inequality(t, one, v);
        lemma_div_is_ordered(t * v, one * v, one);
        lemma_div_multiples_vanish(v, one);
    } else {
        lemma_mul_nonnegative(t, -v);
        assert(t * (-v) == -(t * v)) by (nonlinear_arith);
        lemma_div_is_ordered(t * v, 0, one);
        vstd::arithmetic::div_mod::lemma_div_of0(one);
        lemma_mul_inequality(t, one, -v);
        assert(one * (-v) == -(one * v)) by (nonlinear_arith);
        lemma_div_is_ordered(one * v, t * v, one);
        lemma_div_multiples_vanish(v, one);
    }
}

/// Semi-Lagrangian advection of `d0` into `d` through the velocity pair,
/// followed by the wall condition of kind `b`.
pub fn advect(
    b: BoundaryKind,
    d: &mut Array2DF,
    d0: &Array2DF,
    veloc_x: &Array2DF,
    veloc_y: &Array2DF,
    dt: i64,
)
    requires
        old(d).wf(),
        d0.wf(),
        veloc_x.wf(),
        veloc_y.wf(),
        d0.n == old(d).n,
        veloc_x.n == old(d).n,
        veloc_y.n == old(d).n,
        0 <= dt <= TCAP,
        in_range(old(d)@, VLIM as int),
        in_range(d0@, LCAP as int),
        in_range(veloc_x@, LCAP as int),
        in_range(veloc_y@, LCAP as int),
    ensures
        final(d).wf(),
        final(d).n == old(d).n,
        final(d)@ == advect_spec(b, old(d)@, d0@, veloc_x@, veloc_y@, old(d).n as int, dt as int),
{
    let n: usize = d.n;
    let ghost ni = n as int;
    let ghost sd0 = d@;
    let ghost ss0 = d0@;
    let ghost sx = veloc_x@;
    let ghost sy = veloc_y@;
    proof {
        lemma_grid_size(ni);
        lemma_mul_nonnegative(dt as int, ni - 2);
        lemma_mul_inequality(dt as int, TCAP as int, ni - 2);
        vstd::arithmetic::mul::lemma_mul_upper_bound(dt as int, TCAP as int, ni - 2, 4096);
    }
    let dtx: i64 = dt * ((n as i64) - 2);
    proof {
        assert(dtx as int == dt as int * (ni - 2));
        assert(dtx <= DTXCAP);
    }

    let mut j: usize = 1;
    while j < n - 1
        invariant
            d.wf(),
            d0.wf(),
            veloc_x.wf(),
            veloc_y.wf(),
            d.n == n,
            d0.n == n,
            veloc_x.n == n,
            veloc_y.n == n,
            3 <= n <= NMAX,
            n * n <= 16777216,
            ni == n as int,
            1 <= j <= n - 1,
            d0@ == ss0,
            veloc_x@ == sx,
            veloc_y@ == sy,
            sd0.len() == n * n,
            in_range(sd0, VLIM as int),
            in_range(ss0, LCAP as int),
            in_range(sx, LCAP as int),
            in_range(sy, LCAP as int),
            in_range(d@, VLIM as int),
            0 <= dt <= TCAP,
            0 <= dtx <= DTXCAP,
            dtx as int == dt as int * (ni - 2),
            forall|ki: int, kj: int|
                0 <= ki < ni && 0 <= kj < ni ==> #[trigger] d@[at(ni, ki, kj)] == (
                if interior(ni, ki, kj) && kj < j {
                    adv_cell(ss0, sx, sy, ni, dt as int, ki, kj)
                } else {
                    sd0[at(ni, ki, kj)]
                }),
        decreases n - 1 - j,
    {
        let mut i: usize = 1;
        while i < n - 1
            invariant
                d.wf(),
                d0.wf(),
                veloc_x.wf(),
                veloc_y.wf(),
                d.n == n,
                d0.n == n,
                veloc_x.n == n,
                veloc_y.n == n,
                3 <= n <= NMAX,
                n * n <= 16777216,
                ni == n as int,
                1 <= j < n - 1,
                1 <= i <= n - 1,
                d0@ == ss0,
                veloc_x@ == sx,
                veloc_y@ == sy,
                sd0.len() == n * n,
                in_range(sd0, VLIM as int),
                in_range(ss0, LCAP as int),
                in_range(sx, LCAP as int),
                in_range(sy, LCAP as int),
                in_range(d@, VLIM as int),
                0 <= dt <= TCAP,
                0 <= dtx <= DTXCAP,
                dtx as int == dt as int * (ni - 2),
                forall|ki: int, kj: int|
                    0 <= ki < ni && 0 <= kj < ni ==> #[trigger] d@[at(ni, ki, kj)] == (
                    if interior(ni, ki, kj) && (kj < j || (kj == j && ki < i)) {
                        adv_cell(ss0, sx, sy, ni, dt as int, ki, kj)
                    } else {
                        sd0[at(ni, ki, kj)]
                    }),
            decreases n - 1 - i,
        {
            proof {
                lemma_at_bounds(ni, i as int, j as int);
                assert(-(LCAP as int) <= sx[at(ni, i as int, j as int)] <= LCAP as int);
                assert(-(LCAP as int) <= sy[at(ni, i as int, j as int)] <= LCAP as int);
            }
            let vxv = veloc_x.get(i, j);
            let vyv = veloc_y.get(i, j);
            let xf = backtrace(i, dtx, vxv, n);
            let yf = backtrace(j, dtx, vyv, n);
            proof {
                lemma_backtrace_cell(xf as int, ni);
                lemma_backtrace_cell(yf as int, ni);
            }
            let i0 = (xf / ONE) as usize;
            let j0 = (yf / ONE) as usize;
            let s1: i64 = xf - (i0 as i64) * ONE;
            let s0w: i64 = ONE - s1;
            let t1: i64 = yf - (j0 as i64) * ONE;
            let t0: i64 = ONE - t1;
            proof {
                lemma_at_bounds(ni, i0 as int, j0 as int);
                lemma_at_bounds(ni, i0 as int, j0 as int + 1);
                lemma_at_bounds(ni, i0 as int + 1, j0 as int);
                lemma_at_bounds(ni, i0 as int + 1, j0 as int + 1);
                assert(-(LCAP as int) <= ss0[at(ni, i0 as int, j0 as int)] <= LCAP as int);
                assert(-(LCAP as int) <= ss0[at(ni, i0 as int, j0 as int + 1)] <= LCAP as int);
                assert(-(LCAP as int) <= ss0[at(ni, i0 as int + 1, j0 as int)] <= LCAP as int);
                assert(-(LCAP as int) <= ss0[at(ni, i0 as int + 1, j0 as int + 1)]
                    <= LCAP as int);
            }
            let v00 = d0.get(i0, j0);
            let v01 = d0.get(i0, j0 + 1);
            let v10 = d0.get(i0 + 1, j0);
            let v11 = d0.get(i0 + 1, j0 + 1);
            let inner0: i64 = wmul(t0, v00) + wmul(t1, v01);
            let inner1: i64 = wmul(t0, v10) + wmul(t1, v11);
            let val: i64 = wmul(s0w, inner0) + wmul(s1, inner1);
            let ghost prev = d@;
            proof {
                assert(val as int == adv_cell(ss0, sx, sy, ni, dt as int, i as int, j as int));
            }
            d.set(i, j, val);
            proof {
                assert forall|ki: int, kj: int| 0 <= ki < ni && 0 <= kj < ni implies
                    #[trigger] d@[at(ni, ki, kj)] == (
                    if interior(ni, ki, kj) && (kj < j || (kj == j && ki < i + 1)) {
                        adv_cell(ss0, sx, sy, ni, dt as int, ki, kj)
                    } else {
                        sd0[at(ni, ki, kj)]
                    }) by {
                    lemma_at_bounds(ni, ki, kj);
                    lemma_at_inverse(ni, ki, kj);
                    lemma_at_inverse(ni, i as int, j as int);
                    assert(prev[at(ni, ki, kj)] == (
                    if interior(ni, ki, kj) && (kj < j || (kj == j && ki < i)) {
                        adv_cell(ss0, sx, sy, ni, dt as int, ki, kj)
                    } else {
                        sd0[at(ni, ki, kj)]
                    }));
                }
            }
            i = i + 1;
        }
        j = j + 1;
    }

    proof {
        assert forall|k: int| 0 <= k < d@.len() implies d@[k] == adv_field(sd0, ss0, sx, sy, ni,
            dt as int)[k] by {
            lemma_index_decomp(ni, k);
        }
        assert(d@ =~= adv_field(sd0, ss0, sx, sy, ni, dt as int));
    }
    set_bnd(b, d);
}


/// Interpolation boundedness: each advected interior value lies between the
/// least and greatest of its four sampled source cells, allowing four ticks
/// of downward rounding from the four floored blends.
pub proof fn lemma_adv_cell_bounds(
    s0: Seq<int>,
    sx: Seq<int>,
    sy: Seq<int>,
    n: int,
    dt: int,
    i: int,
    j: int,
    lo: int,
    hi: int,
)
    requires
        3 <= n,
        s0.len() == n * n,
        sx.len() == n * n,
        sy.len() == n * n,
        interior(n, i, j),
        ({
            let dtx = dt * (n - 2);
            let xf = backtrace_spec(i, dtx, sx[at(n, i, j)], n);
            let yf = backtrace_spec(j, dtx, sy[at(n, i, j)], n);
            let i0 = xf / (ONE as int);
            let j0 = yf / (ONE as int);
            &&& lo <= s0[at(n, i0, j0)] <= hi
            &&& lo <= s0[at(n, i0, j0 + 1)] <= hi
            &&& lo <= s0[at(n, i0 + 1, j0)] <= hi
            &&& lo <= s0[at(n, i0 + 1, j0 + 1)] <= hi
        }),
    ensures
        lo - 4 <= adv_cell(s0, sx, sy, n, dt, i, j) <= hi,
{
    let one = ONE as int;
    let dtx = dt * (n - 2);
    let xf = backtrace_spec(i, dtx, sx[at(n, i, j)], n);
    let yf = backtrace_spec(j, dtx, sy[at(n, i, j)], n);
    let i0 = xf / one;
    let j0 = yf / one;
    let s1 = xf - i0 * one;
    let s0w = one - s1;
    let t1 = yf - j0 * one;
    let t0 = one - t1;
    assert(HALF as int <= xf <= (n - 2) * one + HALF as int) by {
        vstd::arithmetic::mul::lemma_mul_nonnegative(n - 2, one);
    }
    assert(HALF as int <= yf <= (n - 2) * one + HALF as int) by {
        vstd::arithmetic::mul::lemma_mul_nonnegative(n - 2, one);
    }
    lemma_backtrace_cell(xf, n);
    lemma_backtrace_cell(yf, n);
    let v00 = s0[at(n, i0, j0)];
    let v01 = s0[at(n, i0, j0 + 1)];
    let v10 = s0[at(n, i0 + 1, j0)];
    let v11 = s0[at(n, i0 + 1, j0 + 1)];
    lemma_blend_range(t0, t1, v00, v01, lo, hi);
    lemma_blend_range(t0, t1, v10, v11, lo, hi);
    let a0 = fmul(t0, v00) + fmul(t1, v01);
    let a1 = fmul(t0, v10) + fmul(t1, v11);
    lemma_blend_range(s0w, s1, a0, a1, lo - 2, hi);
}

/// A convex blend of two values, each weight floored separately, stays below
/// the larger value and within two ticks below the smaller.
pub proof fn lemma_blend_range(t0: int, t1: int, v0: int, v1: int, lo: int, hi: int)
    requires
        0 <= t0 <= ONE as int,
        0 <= t1 <= ONE as int,
        t0 + t1 == ONE as int,
        lo <= v0 <= hi,
        lo <= v1 <= hi,
    ensures
        lo - 2 <= fmul(t0, v0) + fmul(t1, v1) <= hi,
{
    let one = ONE as int;
    lemma_fundamental_div_mod(t0 * v0, one);
    lemma_fundamental_div_mod(t1 * v1, one);
    let q0 = fmul(t0, v0);
    let q1 = fmul(t1, v1);
    assert(q0 * one <= t0 * v0 && t0 * v0 < q0 * one + one) by (nonlinear_arith)
        requires
            t0 * v0 == one * q0 + (t0 * v0) % one,
            0 <= (t0 * v0) % one < one,
            q0 == (t0 * v0) / one,
    ;
    assert(q1 * one <= t1 * v1 && t1 * v1 < q1 * one + one) by (nonlinear_arith)
        requires
            t1 * v1 == one * q1 + (t1 * v1) % one,
            0 <= (t1 * v1) % one < one,
            q1 == (t1 * v1) / one,
    ;
    assert(t0 * lo <= t0 * v0 <= t0 * hi) by (nonlinear_arith)
        requires
            0 <= t0,
            lo <= v0 <= hi,
    ;
    assert(t1 * lo <= t1 * v1 <= t1 * hi) by (nonlinear_arith)
        requires
            0 <= t1,
            lo <= v1 <= hi,
    ;
    assert(t0 * lo + t1 * lo == one * lo && t0 * hi + t1 * hi == one * hi) by (nonlinear_arith)
        requires
            t0 + t1 == one,
    ;
    assert((q0 + q1) * one == q0 * one + q1 * one) by (nonlinear_arith);
    assert((q0 + q1) * one <= one * hi);
    assert(one * lo - 2 * one < (q0 + q1) * one);
    assert((lo - 2) * one == one * lo - 2 * one) by (nonlinear_arith);
    assert(q0 + q1 <= hi) by (nonlinear_arith)
        requires
            (q0 + q1) * one <= one * hi,
            one > 0,
    ;
    assert(lo - 2 <= q0 + q1) by (nonlinear_arith)
        requires
            (lo - 2) * one < (q0 + q1) * one,
            one > 0,
    ;
}

/// The advected grid stays within four times the source bound.
pub proof fn lemma_advect_bound(
    b: BoundaryKind,
    sd: Seq<int>,
    s0: Seq<int>,
    sx: Seq<int>,
    sy: Seq<int>,
    n: int,
    dt: int,
    m0: int,
)
    requires
        3 <= n <= NMAX,
        sd.len() == n * n,
        s0.len() == n * n,
        sx.len() == n * n,
        sy.len() == n * n,
        in_range(s0, m0),
        0 <= m0,
    ensures
        advect_spec(b, sd, s0, sx, sy, n, dt).len() == n * n,
        in_range(advect_spec(b, sd, s0, sx, sy, n, dt), m0 + 4),
{
    assert forall|ii: int, jj: int| interior(n, ii, jj) implies -(m0 + 4) <= #[trigger]
        adv_field(sd, s0, sx, sy, n, dt)[at(n, ii, jj)] <= m0 + 4 by {
        lemma_at_bounds(n, ii, jj);
        lemma_index_decomp(n, at(n, ii, jj));
        lemma_at_inverse(n, ii, jj);
        let dtx = dt * (n - 2);
        let xf = backtrace_spec(ii, dtx, sx[at(n, ii, jj)], n);
        let yf = backtrace_spec(jj, dtx, sy[at(n, ii, jj)], n);
        vstd::arithmetic::mul::lemma_mul_nonnegative(n - 2, ONE as int);
        lemma_backtrace_cell(xf, n);
        lemma_backtrace_cell(yf, n);
        let i0 = xf / (ONE as int);
        let j0 = yf / (ONE as int);
        lemma_at_bounds(n, i0, j0);
        lemma_at_bounds(n, i0, j0 + 1);
        lemma_at_bounds(n, i0 + 1, j0);
        lemma_at_bounds(n, i0 + 1, j0 + 1);
        assert(-m0 <= s0[at(n, i0, j0)] <= m0);
        assert(-m0 <= s0[at(n, i0, j0 + 1)] <= m0);
        assert(-m0 <= s0[at(n, i0 + 1, j0)] <= m0);
        assert(-m0 <= s0[at(n, i0 + 1, j0 + 1)] <= m0);
        lemma_adv_cell_bounds(s0, sx, sy, n, dt, ii, jj, -m0, m0);
    }
    lemma_set_bnd_interior(b, adv_field(sd, s0, sx, sy, n, dt), n, m0 + 4);
}

} // verus!
