//! The relaxation solver and the three field operators built on it.
//!
//! `lin_solve` runs Gauss-Seidel sweeps of the five-point stencil
//! `x[i,j] = (x0[i,j] + a*(x[i+1,j]+x[i-1,j]+x[i,j+1]+x[i,j-1])) / c`,
//! each cell reading its neighbours' freshest values, with the wall condition
//! enforced after every sweep.  Its exact outcome is the recursive spec
//! `relax`; callers reason about bounds through the lemmas below.

use vstd::prelude::*;
use vstd::arithmetic::div_mod::{
    lemma_div_is_ordered, lemma_div_multiples_vanish, lemma_fundamental_div_mod,
};
use crate::fixed::{ONE, VLIM, fdiv, fmul, fx_div, fx_mul};
use crate::grid::{Array2DF, NMAX, at, in_range, lemma_at_bounds, lemma_grid_size, lemma_index_decomp};
use crate::boundary::{BoundaryKind, set_bnd, set_bnd_spec, bnd_cell, lemma_at_inverse};

verus! {

/// Cap on the stencil coefficient `a`.
pub const ACAP: i64 = 0x40000000;

/// Cap on the magnitude of every cell entering the relaxation solver.
pub const LCAP: i64 = 0x10000000000000;

/// Growth allowance of the solver: no sweep drives any cell more than this
/// many ticks beyond the larger of the two input bounds.
pub const SLACK: i64 = 258;

/// Sum of the four stencil neighbours of cell (i, j).
pub open spec fn nb_sum(s: Seq<int>, n: int, i: int, j: int) -> int {
    s[at(n, i + 1, j)] + s[at(n, i - 1, j)] + s[at(n, i, j + 1)] + s[at(n, i, j - 1)]
}

/// The value the Gauss-Seidel update writes into cell (i, j), reading the
/// neighbours from the current state `s` and the source term from `s0`.
pub open spec fn ls_val(s: Seq<int>, s0: Seq<int>, n: int, a: int, c: int, i: int, j: int) -> int {
    fdiv(s0[at(n, i, j)] + fmul(a, nb_sum(s, n, i, j)), c)
}

/// State of one sweep row `j` once columns `1..i` have been updated in order.
pub open spec fn sweep_row(
    s: Seq<int>,
    s0: Seq<int>,
    n: int,
    a: int,
    c: int,
    j: int,
    i: int,
) -> Seq<int>
    decreases i,
{
    if i <= 1 {
        s
    } else {
        let prev = sweep_row(s, s0, n, a, c, j, i - 1);
        prev.update(at(n, i - 1, j), ls_val(prev, s0, n, a, c, i - 1, j))
    }
}

/// State of one full sweep once rows `1..j` have been updated in order.
pub open spec fn sweep_rows(s: Seq<int>, s0: Seq<int>, n: int, a: int, c: int, j: int) -> Seq<int>
    decreases j,
{
    if j <= 1 {
        s
    } else {
        sweep_row(sweep_rows(s, s0, n, a, c, j - 1), s0, n, a, c, j - 1, n - 1)
    }
}

/// One full Gauss-Seidel sweep over the interior.
pub open spec fn sweep(s: Seq<int>, s0: Seq<int>, n: int, a: int, c: int) -> Seq<int> {
    sweep_rows(s, s0, n, a, c, n - 1)
}

/// `it` rounds of sweep-then-wall-condition, the solver's exact outcome.
pub open spec fn relax(
    b: BoundaryKind,
    s: Seq<int>,
    s0: Seq<int>,
    n: int,
    a: int,
    c: int,
    it: nat,
) -> Seq<int>
    decreases it,
{
    if it == 0 {
        s
    } else {
        set_bnd_spec(b, sweep(relax(b, s, s0, n, a, c, (it - 1) as nat), s0, n, a, c), n)
    }
}

/// A bound that holds everywhere still holds under any larger bound.
pub proof fn lemma_in_range_mono(s: Seq<int>, m1: int, m2: int)
    requires
        in_range(s, m1),
        m1 <= m2,
    ensures
        in_range(s, m2),
{
}

/// The Gauss-Seidel update keeps every cell within `m` whenever the current
/// state is within `m` and the source within `m - SLACK`.
pub proof fn lemma_ls_val_bound(
    s: Seq<int>,
    s0: Seq<int>,
    n: int,
    a: int,
    c: int,
    i: int,
    j: int,
    m: int,
    m0: int,
)
    requires
        3 <= n,
        s.len() == n * n,
        s0.len() == n * n,
        1 <= i < n - 1,
        1 <= j < n - 1,
        in_range(s, m),
        in_range(s0, m0),
        0 <= a,
        ONE as int + 4 * a <= c,
        m0 + SLACK as int <= m,
    ensures
        -m <= ls_val(s, s0, n, a, c, i, j) <= m,
{
    let one = ONE as int;
    lemma_at_bounds(n, i, j);
    lemma_at_bounds(n, i + 1, j);
    lemma_at_bounds(n, i - 1, j);
    lemma_at_bounds(n, i, j + 1);
    lemma_at_bounds(n, i, j - 1);
    let sum = nb_sum(s, n, i, j);
    assert(-m <= s[at(n, i + 1, j)] <= m);
    assert(-m <= s[at(n, i - 1, j)] <= m);
    assert(-m <= s[at(n, i, j + 1)] <= m);
    assert(-m <= s[at(n, i, j - 1)] <= m);
    assert(-4 * m <= sum <= 4 * m);
    let v0 = s0[at(n, i, j)];
    assert(-m0 <= v0 <= m0);
    assert(0 <= m0);
    let p = a * sum;
    let pb = 4 * a * m;
    assert(-pb <= p <= pb) by (nonlinear_arith)
        requires
            0 <= a,
            -4 * m <= sum <= 4 * m,
            p == a * sum,
            pb == 4 * a * m,
    ;
    let f = p / one;
    assert(f == fmul(a, sum));
    lemma_div_is_ordered(p, pb, one);
    lemma_div_is_ordered(-pb, p, one);
    lemma_fundamental_div_mod(p, one);
    assert(f * one == p - p % one) by (nonlinear_arith)
        requires
            p == one * f + p % one,
    ;
    assert(f * one <= p);
    assert(p - one < f * one);
    let num = v0 + f;
    assert(num * one == v0 * one + f * one) by (nonlinear_arith)
        requires
            num == v0 + f,
    ;
    assert(v0 * one <= m0 * one && -(m0 * one) <= v0 * one) by (nonlinear_arith)
        requires
            -m0 <= v0 <= m0,
            one == 16777216,
    ;
    assert(num * one <= m0 * one + pb);
    assert(num * one >= -(m0 * one) - pb - one + 1);
    assert(m * c >= m * one + pb) by (nonlinear_arith)
        requires
            0 <= m,
            one + 4 * a <= c,
            pb == 4 * a * m,
            0 <= a,
    ;
    assert((-m) * c <= -(m * one) - pb) by (nonlinear_arith)
        requires
            0 <= m,
            one + 4 * a <= c,
            pb == 4 * a * m,
            0 <= a,
    ;
    assert(m * one >= m0 * one + SLACK as int * one);
    assert(num * one <= m * c);
    assert((-m) * c <= num * one);
    let q = (num * one) / c;
    assert(q == ls_val(s, s0, n, a, c, i, j));
    lemma_div_is_ordered(num * one, m * c, c);
    lemma_div_is_ordered((-m) * c, num * one, c);
    lemma_div_multiples_vanish(m, c);
    lemma_div_multiples_vanish(-m, c);
    assert(m * c == c * m) by (nonlinear_arith);
    assert((-m) * c == c * (-m)) by (nonlinear_arith);
    assert(q <= m);
    assert(-m <= q);
}

/// A partial sweep row keeps its length and stays within the bound.
pub proof fn lemma_sweep_row_bound(
    s: Seq<int>,
    s0: Seq<int>,
    n: int,
    a: int,
    c: int,
    j: int,
    i: int,
    m: int,
    m0: int,
)
    requires
        3 <= n,
        s.len() == n * n,
        s0.len() == n * n,
        1 <= j < n - 1,
        i <= n - 1,
        in_range(s, m),
        in_range(s0, m0),
        0 <= a,
        ONE as int + 4 * a <= c,
        m0 + SLACK as int <= m,
    ensures
        sweep_row(s, s0, n, a, c, j, i).len() == n * n,
        in_range(sweep_row(s, s0, n, a, c, j, i), m),
    decreases i,
{
    if i <= 1 {
    } else {
        lemma_sweep_row_bound(s, s0, n, a, c, j, i - 1, m, m0);
        let prev = sweep_row(s, s0, n, a, c, j, i - 1);
        lemma_ls_val_bound(prev, s0, n, a, c, i - 1, j, m, m0);
        lemma_at_bounds(n, i - 1, j);
    }
}

/// A partial sweep keeps its length and stays within the bound.
pub proof fn lemma_sweep_rows_bound(
    s: Seq<int>,
    s0: Seq<int>,
    n: int,
    a: int,
    c: int,
    j: int,
    m: int,
    m0: int,
)
    requires
        3 <= n,
        s.len() == n * n,
        s0.len() == n * n,
        j <= n - 1,
        in_range(s, m),
        in_range(s0, m0),
        0 <= a,
        ONE as int + 4 * a <= c,
        m0 + SLACK as int <= m,
    ensures
        sweep_rows(s, s0, n, a, c, j).len() == n * n,
        in_range(sweep_rows(s, s0, n, a, c, j), m),
    decreases j,
{
    if j <= 1 {
    } else {
        lemma_sweep_rows_bound(s, s0, n, a, c, j - 1, m, m0);
        lemma_sweep_row_bound(sweep_rows(s, s0, n, a, c, j - 1), s0, n, a, c, j - 1, n - 1, m, m0);
    }
}

/// Enforcing the wall condition never drives a cell out of a bound.
pub proof fn lemma_set_bnd_in_range(b: BoundaryKind, s: Seq<int>, n: int, m: int)
    requires
        3 <= n,
        s.len() == n * n,
        in_range(s, m),
    ensures
        set_bnd_spec(b, s, n).len() == n * n,
        in_range(set_bnd_spec(b, s, n), m),
{
    let r = set_bnd_spec(b, s, n);
    assert(0 <= m) by {
        lemma_at_bounds(n, 1, 1);
        assert(-m <= s[at(n, 1, 1)] <= m);
    }
    assert forall|k: int| 0 <= k < r.len() implies -m <= #[trigger] r[k] <= m by {
        let ki = k % n;
        let kj = k / n;
        lemma_fundamental_div_mod(k, n);
        vstd::arithmetic::div_mod::lemma_mod_division_less_than_divisor(k, n);
        vstd::arithmetic::div_mod::lemma_div_pos_is_pos(k, n);
        assert(kj < n) by (nonlinear_arith)
            requires
                k == n * kj + ki,
                0 <= ki < n,
                0 <= kj,
                k < n * n,
        ;
        assert(r[k] == bnd_cell(b, s, n, ki, kj));
        lemma_at_bounds(n, 1, 1);
        lemma_at_bounds(n, 1, n - 2);
        lemma_at_bounds(n, n - 2, 1);
        lemma_at_bounds(n, n - 2, n - 2);
        if 1 <= ki < n - 1 && (kj == 0 || kj == n - 1) {
            lemma_at_bounds(n, ki, 1);
            lemma_at_bounds(n, ki, n - 2);
        }
        if 1 <= kj < n - 1 && (ki == 0 || ki == n - 1) {
            lemma_at_bounds(n, 1, kj);
            lemma_at_bounds(n, n - 2, kj);
        }
        lemma_at_bounds(n, ki, kj);
        if (ki == 0 || ki == n - 1) && (kj == 0 || kj == n - 1) {
            let v = if ki == 0 && kj == 0 {
                s[at(n, 1, 1)]
            } else if ki == 0 {
                s[at(n, 1, n - 2)]
            } else if kj == 0 {
                s[at(n, n - 2, 1)]
            } else {
                s[at(n, n - 2, n - 2)]
            };
            let w = crate::boundary::vflip(b, v) + crate::boundary::hflip(b, v);
            assert(-2 * m <= w <= 2 * m);
            lemma_div_is_ordered(w, 2 * m, 2);
            lemma_div_is_ordered(-2 * m, w, 2);
            lemma_div_multiples_vanish(m, 2);
            lemma_div_multiples_vanish(-m, 2);
            assert(-m <= w / 2 <= m);
        }
    }
}

/// The solver's outcome keeps its length and stays within the bound.
pub proof fn lemma_relax_bound(
    b: BoundaryKind,
    s: Seq<int>,
    s0: Seq<int>,
    n: int,
    a: int,
    c: int,
    it: nat,
    m: int,
    m0: int,
)
    requires
        3 <= n,
        s.len() == n * n,
        s0.len() == n * n,
        in_range(s, m),
        in_range(s0, m0),
        0 <= a,
        ONE as int + 4 * a <= c,
        m0 + SLACK as int <= m,
    ensures
        relax(b, s, s0, n, a, c, it).len() == n * n,
        in_range(relax(b, s, s0, n, a, c, it), m),
    decreases it,
{
    if it == 0 {
    } else {
        lemma_relax_bound(b, s, s0, n, a, c, (it - 1) as nat, m, m0);
        let prev = relax(b, s, s0, n, a, c, (it - 1) as nat);
        lemma_sweep_rows_bound(prev, s0, n, a, c, n - 1, m, m0);
        lemma_set_bnd_in_range(b, sweep(prev, s0, n, a, c), n, m);
    }
}

/// Gauss-Seidel relaxation: `iter` sweeps of the five-point stencil over the
/// interior of `x`, the wall condition of kind `b` enforced after each sweep.
pub fn lin_solve(
    b: BoundaryKind,
    x: &mut Array2DF,
    x0: &Array2DF,
    a: i64,
    c: i64,
    iter: usize,
    n: usize,
)
    requires
        old(x).wf(),
        x0.wf(),
        old(x).n == n,
        x0.n == n,
        0 <= a <= ACAP,
        ONE as int + 4 * a as int <= c as int,
        in_range(old(x)@, LCAP as int),
        in_range(x0@, LCAP as int),
    ensures
        final(x).wf(),
        final(x).n == n,
        final(x)@ == relax(b, old(x)@, x0@, n as int, a as int, c as int, iter as nat),
        in_range(final(x)@, LCAP as int + SLACK as int),
{
    let ghost ni = n as int;
    let ghost sx = old(x)@;
    let ghost ss = x0@;
    let ghost m1 = LCAP as int + SLACK as int;
    proof {
        lemma_grid_size(ni);
        lemma_in_range_mono(sx, LCAP as int, m1);
        lemma_relax_bound(b, sx, ss, ni, a as int, c as int, 0nat, m1, LCAP as int);
    }
    let mut it: usize = 0;
    while it < iter
        invariant
            x.wf(),
            x.n == n,
            3 <= n <= NMAX,
            n * n <= 16777216,
            x0.wf(),
            x0.n == n,
            x0@ == ss,
            sx.len() == n * n,
            ss.len() == n * n,
            it <= iter,
            ni == n as int,
            0 <= a <= ACAP,
            ONE as int + 4 * a as int <= c as int,
            in_range(ss, LCAP as int),
            m1 == LCAP as int + SLACK as int,
            x@ == relax(b, sx, ss, ni, a as int, c as int, it as nat),
            in_range(x@, m1),
        decreases iter - it,
    {
        let ghost cur0 = x@;
        let mut j: usize = 1;
        while j < n - 1
            invariant
                x.wf(),
                x.n == n,
                3 <= n <= NMAX,
                n * n <= 16777216,
                x0.wf(),
                x0.n == n,
                x0@ == ss,
                cur0.len() == n * n,
                ss.len() == n * n,
                1 <= j <= n - 1,
                ni == n as int,
                0 <= a <= ACAP,
                ONE as int + 4 * a as int <= c as int,
                in_range(ss, LCAP as int),
                in_range(cur0, m1),
                m1 == LCAP as int + SLACK as int,
                x@ == sweep_rows(cur0, ss, ni, a as int, c as int, j as int),
                in_range(x@, m1),
            decreases n - 1 - j,
        {
            let ghost row0 = x@;
            let mut i: usize = 1;
            while i < n - 1
                invariant
                    x.wf(),
                    x.n == n,
                    3 <= n <= NMAX,
                    n * n <= 16777216,
                    x0.wf(),
                    x0.n == n,
                    x0@ == ss,
                    row0.len() == n * n,
                    ss.len() == n * n,
                    1 <= i <= n - 1,
                    1 <= j < n - 1,
                    ni == n as int,
                    0 <= a <= ACAP,
                    ONE as int + 4 * a as int <= c as int,
                    in_range(ss, LCAP as int),
                    in_range(row0, m1),
                    m1 == LCAP as int + SLACK as int,
                    x@ == sweep_row(row0, ss, ni, a as int, c as int, j as int, i as int),
                    in_range(x@, m1),
                decreases n - 1 - i,
            {
                proof {
                    lemma_at_bounds(ni, i as int, j as int);
                    lemma_at_bounds(ni, i as int + 1, j as int);
                    lemma_at_bounds(ni, i as int - 1, j as int);
                    lemma_at_bounds(ni, i as int, j as int + 1);
                    lemma_at_bounds(ni, i as int, j as int - 1);
                }
                let ghost prev = x@;
                let e = x.get(i + 1, j);
                let w = x.get(i - 1, j);
                let s_ = x.get(i, j + 1);
                let nn = x.get(i, j - 1);
                let v0 = x0.get(i, j);
                proof {
                    assert(-m1 <= prev[at(ni, i as int + 1, j as int)] <= m1);
                    assert(-m1 <= prev[at(ni, i as int - 1, j as int)] <= m1);
                    assert(-m1 <= prev[at(ni, i as int, j as int + 1)] <= m1);
                    assert(-m1 <= prev[at(ni, i as int, j as int - 1)] <= m1);
                    assert(-(LCAP as int) <= ss[at(ni, i as int, j as int)] <= LCAP as int);
                }
                let sum: i64 = e + w + s_ + nn;
                proof {

                    let ai = a as int;
                    let si = sum as int;
                    vstd::arithmetic::mul::lemma_mul_inequality(si, 0x80000000000000, ai);
                    vstd::arithmetic::mul::lemma_mul_inequality(-0x80000000000000, si, ai);
                    vstd::arithmetic::mul::lemma_mul_inequality(ai, 0x40000000,
                        0x80000000000000);
                    assert(-0x2000000000000000000000 <= ai * si <= 0x2000000000000000000000);
                }
                let f: i64 = fx_mul(a, sum);
                proof {
                    assert(f * (ONE as int) <= a as int * sum as int);
                    assert((a as int * sum as int) < f * (ONE as int) + ONE as int);
                    assert(-0x2000000000000000 <= f <= 0x2000000000000000) by (nonlinear_arith)
                        requires
                            f * (ONE as int) <= a as int * sum as int,
                            (a as int * sum as int) < f * (ONE as int) + ONE as int,
                            -0x2000000000000000000000 <= a as int * sum as int
                                <= 0x2000000000000000000000,
                            ONE == 16777216i64,
                    ;
                }
                let num: i64 = v0 + f;
                let val: i64 = fx_div(num, c);
                proof {
                    assert(val == ls_val(prev, ss, ni, a as int, c as int, i as int, j as int));
                    lemma_ls_val_bound(prev, ss, ni, a as int, c as int, i as int, j as int, m1,
                        LCAP as int);
                }
                x.set(i, j, val);
                proof {
                    assert(x@ == sweep_row(row0, ss, ni, a as int, c as int, j as int,
                        i as int + 1));
                }
                i = i + 1;
            }
            proof {
                assert(x@ == sweep_rows(cur0, ss, ni, a as int, c as int, j as int + 1));
            }
            j = j + 1;
        }
        proof {
            lemma_in_range_mono(x@, m1, VLIM as int);
        }
        set_bnd(b, x);
        proof {
            assert(x@ == relax(b, sx, ss, ni, a as int, c as int, (it + 1) as nat));
            lemma_set_bnd_in_range(b, sweep(relax(b, sx, ss, ni, a as int, c as int, it as nat),
                ss, ni, a as int, c as int), ni, m1);
        }
        it = it + 1;
    }
}


/// Cap on the timestep and on the two diffusion rates.
pub const TCAP: i64 = 0x10000000000;

/// Cap on every velocity cell entering the projection operator.
pub const GCAP: i64 = 0x100000000000;

/// Whether (i, j) is an interior cell of a grid of edge n.
pub open spec fn interior(n: int, i: int, j: int) -> bool {
    1 <= i < n - 1 && 1 <= j < n - 1
}

/// Diffusion coefficient `a = dt * rate * (n-2)^2`, a fixed-point value.
pub open spec fn diff_coef(dt: int, rate: int, n: int) -> int {
    (dt * rate * ((n - 2) * (n - 2))) / (ONE as int)
}

/// The diffusion operator's exact outcome: relaxation with the derived
/// coefficients, then one more pass of the wall condition.
pub open spec fn diffuse_spec(
    b: BoundaryKind,
    s: Seq<int>,
    s0: Seq<int>,
    n: int,
    dt: int,
    rate: int,
    it: nat,
) -> Seq<int> {
    let a = diff_coef(dt, rate, n);
    set_bnd_spec(b, relax(b, s, s0, n, a, ONE as int + 6 * a, it), n)
}

/// Implicit diffusion of `x0` into `x` at rate `diff` over timestep `dt`.
pub fn diffuse(
    b: BoundaryKind,
    x: &mut Array2DF,
    x0: &Array2DF,
    diff: i64,
    dt: i64,
    iter: usize,
    n: usize,
)
    requires
        old(x).wf(),
        x0.wf(),
        old(x).n == n,
        x0.n == n,
        0 <= dt <= TCAP,
        0 <= diff <= TCAP,
        diff_coef(dt as int, diff as int, n as int) <= ACAP as int,
        in_range(old(x)@, LCAP as int),
        in_range(x0@, LCAP as int),
    ensures
        final(x).wf(),
        final(x).n == n,
        final(x)@ == diffuse_spec(b, old(x)@, x0@, n as int, dt as int, diff as int, iter as nat),
        in_range(final(x)@, LCAP as int + SLACK as int),
{
    let ghost ni = n as int;
    let n2: i128 = (n as i128) - 2;
    proof {
        vstd::arithmetic::mul::lemma_mul_upper_bound(n2 as int, 0x1000, n2 as int, 0x1000);
        vstd::arithmetic::mul::lemma_mul_nonnegative(n2 as int, n2 as int);
        vstd::arithmetic::mul::lemma_mul_upper_bound(dt as int, TCAP as int, diff as int,
            TCAP as int);
        vstd::arithmetic::mul::lemma_mul_nonnegative(dt as int, diff as int);
        vstd::arithmetic::mul::lemma_mul_upper_bound(dt as int * diff as int,
            0x100000000000000000000, n2 as int * n2 as int, 0x1000000);
        vstd::arithmetic::mul::lemma_mul_nonnegative(dt as int * diff as int,
            n2 as int * n2 as int);
    }
    let sq: i128 = n2 * n2;
    let prod: i128 = (dt as i128) * (diff as i128) * sq;
    proof {
        assert(prod == dt as int * diff as int * (n2 as int * n2 as int))
            by (nonlinear_arith)
            requires
                prod == (dt as int * diff as int) * (n2 as int * n2 as int),
        ;
    }
    let a128: i128 = prod / (ONE as i128);
    proof {
        assert(a128 == diff_coef(dt as int, diff as int, n as int));
        vstd::arithmetic::div_mod::lemma_div_pos_is_pos(prod as int, ONE as int);
    }
    let a: i64 = a128 as i64;
    let c: i64 = ONE + 6 * a;
    lin_solve(b, x, x0, a, c, iter, n);
    proof {
        lemma_in_range_mono(x@, LCAP as int + SLACK as int, VLIM as int);
    }
    set_bnd(b, x);
    proof {
        lemma_set_bnd_in_range(b, relax(b, old(x)@, x0@, ni, a as int, c as int, iter as nat), ni,
            LCAP as int + SLACK as int);
    }
}

/// Divergence of the velocity pair at interior cell (i, j).
pub open spec fn div_cell(sx: Seq<int>, sy: Seq<int>, n: int, i: int, j: int) -> int {
    (-(sx[at(n, i + 1, j)] - sx[at(n, i - 1, j)] + sy[at(n, i, j + 1)] - sy[at(n, i, j - 1)])) / (2
        * n)
}

/// The divergence grid before its wall pass: interior cells hold the
/// divergence, border cells keep what the scratch grid `sd` held.
pub open spec fn div_field(sx: Seq<int>, sy: Seq<int>, sd: Seq<int>, n: int) -> Seq<int> {
    Seq::new(sd.len(), |k: int|
        if interior(n, k % n, k / n) {
            div_cell(sx, sy, n, k % n, k / n)
        } else {
            sd[k]
        })
}

/// The pressure grid before its wall pass: zero on the interior.
pub open spec fn p_field(sp: Seq<int>, n: int) -> Seq<int> {
    Seq::new(sp.len(), |k: int|
        if interior(n, k % n, k / n) {
            0
        } else {
            sp[k]
        })
}

/// Horizontal velocity cell after the pressure-gradient subtraction.
pub open spec fn grad_x_cell(sp: Seq<int>, sv: Seq<int>, n: int, i: int, j: int) -> int {
    sv[at(n, i, j)] - ((sp[at(n, i + 1, j)] - sp[at(n, i - 1, j)]) * n) / 2
}

/// Vertical velocity cell after the pressure-gradient subtraction.
pub open spec fn grad_y_cell(sp: Seq<int>, sv: Seq<int>, n: int, i: int, j: int) -> int {
    sv[at(n, i, j)] - ((sp[at(n, i, j + 1)] - sp[at(n, i, j - 1)]) * n) / 2
}

/// A velocity grid after the gradient subtraction on its interior.
pub open spec fn grad_x_field(sp: Seq<int>, sv: Seq<int>, n: int) -> Seq<int> {
    Seq::new(sv.len(), |k: int|
        if interior(n, k % n, k / n) {
            grad_x_cell(sp, sv, n, k % n, k / n)
        } else {
            sv[k]
        })
}

/// A velocity grid after the gradient subtraction on its interior.
pub open spec fn grad_y_field(sp: Seq<int>, sv: Seq<int>, n: int) -> Seq<int> {
    Seq::new(sv.len(), |k: int|
        if interior(n, k % n, k / n) {
            grad_y_cell(sp, sv, n, k % n, k / n)
        } else {
            sv[k]
        })
}

/// The projection operator's exact outcome on (velocity-x, velocity-y,
/// pressure scratch, divergence scratch).
pub open spec fn project_spec(
    sx: Seq<int>,
    sy: Seq<int>,
    sp: Seq<int>,
    sd: Seq<int>,
    n: int,
    it: nat,
) -> (Seq<int>, Seq<int>, Seq<int>, Seq<int>) {
    let dv = set_bnd_spec(BoundaryKind::Density, div_field(sx, sy, sd, n), n);
    let p0 = set_bnd_spec(BoundaryKind::Density, p_field(sp, n), n);
    let ps = set_bnd_spec(
        BoundaryKind::Density,
        relax(BoundaryKind::Density, p0, dv, n, ONE as int, 6 * ONE as int, it),
        n,
    );
    let vx = set_bnd_spec(BoundaryKind::VelocityX, grad_x_field(ps, sx, n), n);
    let vy = set_bnd_spec(BoundaryKind::VelocityY, grad_y_field(ps, sy, n), n);
    (vx, vy, ps, dv)
}


/// Floor division by a positive divisor stays within any bound whose product
/// with the divisor encloses the dividend.
pub proof fn lemma_floor_div_bound(x: int, d: int, m: int)
    requires
        d > 0,
        0 <= m,
        -(m * d) <= x <= m * d,
    ensures
        -m <= x / d <= m,
{
    lemma_div_is_ordered(x, m * d, d);
    lemma_div_is_ordered(-(m * d), x, d);
    lemma_div_multiples_vanish(m, d);
    lemma_div_multiples_vanish(-m, d);
    assert(m * d == d * m) by (nonlinear_arith);
    assert(-(m * d) == d * (-m)) by (nonlinear_arith);
}

/// The wall pass keeps every cell within any bound that holds on the
/// interior, whatever the border held before.
pub proof fn lemma_set_bnd_interior(b: BoundaryKind, s: Seq<int>, n: int, m: int)
    requires
        3 <= n,
        s.len() == n * n,
        0 <= m,
        forall|ii: int, jj: int|
            interior(n, ii, jj) ==> -m <= #[trigger] s[at(n, ii, jj)] <= m,
    ensures
        set_bnd_spec(b, s, n).len() == n * n,
        in_range(set_bnd_spec(b, s, n), m),
{
    let r = set_bnd_spec(b, s, n);
    assert forall|k: int| 0 <= k < r.len() implies -m <= #[trigger] r[k] <= m by {
        let ki = k % n;
        let kj = k / n;
        lemma_fundamental_div_mod(k, n);
        vstd::arithmetic::div_mod::lemma_mod_division_less_than_divisor(k, n);
        vstd::arithmetic::div_mod::lemma_div_pos_is_pos(k, n);
        assert(kj < n) by (nonlinear_arith)
            requires
                k == n * kj + ki,
                0 <= ki < n,
                0 <= kj,
                k < n * n,
        ;
        assert(r[k] == bnd_cell(b, s, n, ki, kj));
        assert(interior(n, 1, 1));
        assert(interior(n, 1, n - 2));
        assert(interior(n, n - 2, 1));
        assert(interior(n, n - 2, n - 2));
        assert(-m <= s[at(n, 1, 1)] <= m);
        assert(-m <= s[at(n, 1, n - 2)] <= m);
        assert(-m <= s[at(n, n - 2, 1)] <= m);
        assert(-m <= s[at(n, n - 2, n - 2)] <= m);
        if 1 <= ki < n - 1 {
            assert(interior(n, ki, 1));
            assert(interior(n, ki, n - 2));
            assert(-m <= s[at(n, ki, 1)] <= m);
            assert(-m <= s[at(n, ki, n - 2)] <= m);
        }
        if 1 <= kj < n - 1 {
            assert(interior(n, 1, kj));
            assert(interior(n, n - 2, kj));
            assert(-m <= s[at(n, 1, kj)] <= m);
            assert(-m <= s[at(n, n - 2, kj)] <= m);
        }
        if (ki == 0 || ki == n - 1) && (kj == 0 || kj == n - 1) {
            let v = if ki == 0 && kj == 0 {
                s[at(n, 1, 1)]
            } else if ki == 0 {
                s[at(n, 1, n - 2)]
            } else if kj == 0 {
                s[at(n, n - 2, 1)]
            } else {
                s[at(n, n - 2, n - 2)]
            };
            let w = crate::boundary::vflip(b, v) + crate::boundary::hflip(b, v);
            assert(-2 * m <= w <= 2 * m);
            lemma_floor_div_bound(w, 2, m);
        }
    }
}

/// Divergence at an interior cell of velocities bounded by `g` stays within
/// `(4g)/(2n) + 1`.
pub proof fn lemma_div_cell_bound(sx: Seq<int>, sy: Seq<int>, n: int, i: int, j: int, g: int)
    requires
        3 <= n,
        sx.len() == n * n,
        sy.len() == n * n,
        interior(n, i, j),
        in_range(sx, g),
        in_range(sy, g),
        0 <= g,
    ensures
        -((4 * g) / (2 * n) + 1) <= div_cell(sx, sy, n, i, j) <= (4 * g) / (2 * n) + 1,
{
    lemma_at_bounds(n, i + 1, j);
    lemma_at_bounds(n, i - 1, j);
    lemma_at_bounds(n, i, j + 1);
    lemma_at_bounds(n, i, j - 1);
    assert(-g <= sx[at(n, i + 1, j)] <= g);
    assert(-g <= sx[at(n, i - 1, j)] <= g);
    assert(-g <= sy[at(n, i, j + 1)] <= g);
    assert(-g <= sy[at(n, i, j - 1)] <= g);
    let num = -(sx[at(n, i + 1, j)] - sx[at(n, i - 1, j)] + sy[at(n, i, j + 1)] - sy[at(
        n,
        i,
        j - 1,
    )]);
    assert(-(4 * g) <= num <= 4 * g);
    let m = (4 * g) / (2 * n) + 1;
    vstd::arithmetic::div_mod::lemma_div_pos_is_pos(4 * g, 2 * n);
    lemma_fundamental_div_mod(4 * g, 2 * n);
    assert(m * (2 * n) >= 4 * g) by (nonlinear_arith)
        requires
            m == (4 * g) / (2 * n) + 1,
            4 * g == (2 * n) * ((4 * g) / (2 * n)) + (4 * g) % (2 * n),
            0 <= (4 * g) % (2 * n) < 2 * n,
            n >= 3,
    ;
    lemma_floor_div_bound(num, 2 * n, m);
}

/// The gradient subtraction moves a velocity cell by at most `pb*n + 1` when
/// the pressure grid is bounded by `pb`.
pub proof fn lemma_grad_cell_bound(
    sp: Seq<int>,
    sv: Seq<int>,
    n: int,
    i: int,
    j: int,
    g: int,
    pb: int,
)
    requires
        3 <= n,
        sp.len() == n * n,
        sv.len() == n * n,
        interior(n, i, j),
        in_range(sp, pb),
        in_range(sv, g),
        0 <= g,
        0 <= pb,
    ensures
        -(g + pb * n + 1) <= grad_x_cell(sp, sv, n, i, j) <= g + pb * n + 1,
        -(g + pb * n + 1) <= grad_y_cell(sp, sv, n, i, j) <= g + pb * n + 1,
{
    lemma_at_bounds(n, i, j);
    lemma_at_bounds(n, i + 1, j);
    lemma_at_bounds(n, i - 1, j);
    lemma_at_bounds(n, i, j + 1);
    lemma_at_bounds(n, i, j - 1);
    assert(-pb <= sp[at(n, i + 1, j)] <= pb);
    assert(-pb <= sp[at(n, i - 1, j)] <= pb);
    assert(-pb <= sp[at(n, i, j + 1)] <= pb);
    assert(-pb <= sp[at(n, i, j - 1)] <= pb);
    assert(-g <= sv[at(n, i, j)] <= g);
    let dx = sp[at(n, i + 1, j)] - sp[at(n, i - 1, j)];
    let dy = sp[at(n, i, j + 1)] - sp[at(n, i, j - 1)];
    assert(-(2 * pb) <= dx <= 2 * pb);
    assert(-(2 * pb) <= dy <= 2 * pb);
    vstd::arithmetic::mul::lemma_mul_nonnegative(pb, n);
    vstd::arithmetic::mul::lemma_mul_inequality(dx, 2 * pb, n);
    vstd::arithmetic::mul::lemma_mul_inequality(-(2 * pb), dx, n);
    vstd::arithmetic::mul::lemma_mul_inequality(dy, 2 * pb, n);
    vstd::arithmetic::mul::lemma_mul_inequality(-(2 * pb), dy, n);
    assert((2 * pb) * n == 2 * (pb * n)) by (nonlinear_arith);
    assert((-(2 * pb)) * n == -(2 * (pb * n))) by (nonlinear_arith);
    lemma_floor_div_bound(dx * n, 2, pb * n + 1);
    lemma_floor_div_bound(dy * n, 2, pb * n + 1);
}


/// Cap on a pressure-difference handed to the gradient subtraction.
pub const PDCAP: i64 = 0x300000000000;

/// Divergence value: `(-sum) / (2n)`, the floor of `-0.5 * sum / n` in ticks.
fn div_value(sum: i64, n: usize) -> (r: i64)
    requires
        3 <= n <= NMAX,
        -0x400000000000 <= sum <= 0x400000000000,
    ensures
        r as int == (-(sum as int)) / (2 * n as int),
        -GCAP <= r <= GCAP,
{
    let q: i128 = crate::fixed::floor_div_i128(-(sum as i128), 2 * (n as i128));
    proof {
        lemma_fundamental_div_mod(-(sum as int), 2 * n as int);
        assert(-(GCAP as int) <= q <= GCAP as int) by (nonlinear_arith)
            requires
                -(sum as int) == (2 * n as int) * (q as int) + (-(sum as int)) % (2 * n as int),
                0 <= (-(sum as int)) % (2 * n as int) < 2 * n as int,
                3 <= n as int <= 4096,
                -0x400000000000 <= sum as int <= 0x400000000000,
                GCAP == 0x100000000000i64,
        ;
    }
    q as i64
}

/// Velocity cell minus the floored half pressure-difference times `n`.
fn grad_value(v: i64, pdiff: i64, n: usize) -> (r: i64)
    requires
        3 <= n <= NMAX,
        -GCAP <= v <= GCAP,
        -PDCAP <= pdiff <= PDCAP,
    ensures
        r as int == v as int - (pdiff as int * n as int) / 2,
{
    proof {
        vstd::arithmetic::mul::lemma_mul_inequality(pdiff as int, PDCAP as int, n as int);
        vstd::arithmetic::mul::lemma_mul_inequality(-(PDCAP as int), pdiff as int, n as int);
        assert(PDCAP as int * n as int <= 0x3000000000000000) by (nonlinear_arith)
            requires
                n as int <= 4096,
                PDCAP == 0x300000000000i64,
        ;
        assert((-(PDCAP as int)) * n as int == -(PDCAP as int * n as int)) by (nonlinear_arith);
    }
    let pn: i128 = (pdiff as i128) * (n as i128);
    let q: i128 = crate::fixed::floor_div_i128(pn, 2);
    proof {
        lemma_fundamental_div_mod(pn as int, 2);
    }
    (v as i128 - q) as i64
}

/// Projection: make the velocity pair divergence-free.  The divergence is
/// measured into `div`, a pressure field is relaxed in `p`, and its gradient
/// is subtracted from the velocities; walls are enforced at each stage.
pub fn project(
    veloc_x: &mut Array2DF,
    veloc_y: &mut Array2DF,
    p: &mut Array2DF,
    div: &mut Array2DF,
    iter: usize,
    n: usize,
)
    requires
        old(veloc_x).wf(),
        old(veloc_y).wf(),
        old(p).wf(),
        old(div).wf(),
        old(veloc_x).n == n,
        old(veloc_y).n == n,
        old(p).n == n,
        old(div).n == n,
        in_range(old(veloc_x)@, GCAP as int),
        in_range(old(veloc_y)@, GCAP as int),
        in_range(old(p)@, VLIM as int),
        in_range(old(div)@, VLIM as int),
    ensures
        final(veloc_x).wf(),
        final(veloc_y).wf(),
        final(p).wf(),
        final(div).wf(),
        final(veloc_x).n == n,
        final(veloc_y).n == n,
        final(p).n == n,
        final(div).n == n,
        final(veloc_x)@ == project_spec(old(veloc_x)@, old(veloc_y)@, old(p)@, old(div)@,
            n as int, iter as nat).0,
        final(veloc_y)@ == project_spec(old(veloc_x)@, old(veloc_y)@, old(p)@, old(div)@,
            n as int, iter as nat).1,
        final(p)@ == project_spec(old(veloc_x)@, old(veloc_y)@, old(p)@, old(div)@, n as int,
            iter as nat).2,
        final(div)@ == project_spec(old(veloc_x)@, old(veloc_y)@, old(p)@, old(div)@, n as int,
            iter as nat).3,
{
    let ghost ni = n as int;
    let ghost sx0 = veloc_x@;
    let ghost sy0 = veloc_y@;
    let ghost sp0 = p@;
    let ghost sd0 = div@;
    proof {
        lemma_grid_size(ni);
    }

    let mut j: usize = 1;
    while j < n - 1
        invariant
            veloc_x.wf(),
            veloc_y.wf(),
            p.wf(),
            div.wf(),
            veloc_x.n == n,
            veloc_y.n == n,
            p.n == n,
            div.n == n,
            3 <= n <= NMAX,
            n * n <= 16777216,
            ni == n as int,
            1 <= j <= n - 1,
            veloc_x@ == sx0,
            veloc_y@ == sy0,
            sp0.len() == n * n,
            sd0.len() == n * n,
            in_range(sx0, GCAP as int),
            in_range(sy0, GCAP as int),
            in_range(sp0, VLIM as int),
            in_range(sd0, VLIM as int),
            in_range(div@, VLIM as int),
            in_range(p@, VLIM as int),
            forall|ki: int, kj: int|
                0 <= ki < ni && 0 <= kj < ni ==> #[trigger] div@[at(ni, ki, kj)] == (
                if interior(ni, ki, kj) && kj < j {
                    div_cell(sx0, sy0, ni, ki, kj)
                } else {
                    sd0[at(ni, ki, kj)]
                }),
            forall|ki: int, kj: int|
                0 <= ki < ni && 0 <= kj < ni ==> #[trigger] p@[at(ni, ki, kj)] == (
                if interior(ni, ki, kj) && kj < j {
                    0
                } else {
                    sp0[at(ni, ki, kj)]
                }),
        decreases n - 1 - j,
    {
        let mut i: usize = 1;
        while i < n - 1
            invariant
                veloc_x.wf(),
                veloc_y.wf(),
                p.wf(),
                div.wf(),
                veloc_x.n == n,
                veloc_y.n == n,
                p.n == n,
                div.n == n,
                3 <= n <= NMAX,
                n * n <= 16777216,
                ni == n as int,
                1 <= j < n - 1,
                1 <= i <= n - 1,
                veloc_x@ == sx0,
                veloc_y@ == sy0,
                sp0.len() == n * n,
                sd0.len() == n * n,
                in_range(sx0, GCAP as int),
                in_range(sy0, GCAP as int),
                in_range(sp0, VLIM as int),
                in_range(sd0, VLIM as int),
                in_range(div@, VLIM as int),
                in_range(p@, VLIM as int),
                forall|ki: int, kj: int|
                    0 <= ki < ni && 0 <= kj < ni ==> #[trigger] div@[at(ni, ki, kj)] == (
                    if interior(ni, ki, kj) && (kj < j || (kj == j && ki < i)) {
                        div_cell(sx0, sy0, ni, ki, kj)
                    } else {
                        sd0[at(ni, ki, kj)]
                    }),
                forall|ki: int, kj: int|
                    0 <= ki < ni && 0 <= kj < ni ==> #[trigger] p@[at(ni, ki, kj)] == (
                    if interior(ni, ki, kj) && (kj < j || (kj == j && ki < i)) {
                        0
                    } else {
                        sp0[at(ni, ki, kj)]
                    }),
            decreases n - 1 - i,
        {
            proof {
                lemma_at_bounds(ni, i as int, j as int);
                lemma_at_bounds(ni, i as int + 1, j as int);
                lemma_at_bounds(ni, i as int - 1, j as int);
                lemma_at_bounds(ni, i as int, j as int + 1);
                lemma_at_bounds(ni, i as int, j as int - 1);
                assert(-(GCAP as int) <= sx0[at(ni, i as int + 1, j as int)] <= GCAP as int);
                assert(-(GCAP as int) <= sx0[at(ni, i as int - 1, j as int)] <= GCAP as int);
                assert(-(GCAP as int) <= sy0[at(ni, i as int, j as int + 1)] <= GCAP as int);
                assert(-(GCAP as int) <= sy0[at(ni, i as int, j as int - 1)] <= GCAP as int);
            }
            let e = veloc_x.get(i + 1, j);
            let w = veloc_x.get(i - 1, j);
            let so = veloc_y.get(i, j + 1);
            let no = veloc_y.get(i, j - 1);
            let sum: i64 = e - w + so - no;
            let dv = div_value(sum, n);
            let ghost dprev = div@;
            let ghost pprev = p@;
            div.set(i, j, dv);
            p.set(i, j, 0);
            proof {
                assert(dv as int == div_cell(sx0, sy0, ni, i as int, j as int));
                assert forall|ki: int, kj: int| 0 <= ki < ni && 0 <= kj < ni implies
                    #[trigger] div@[at(ni, ki, kj)] == (
                    if interior(ni, ki, kj) && (kj < j || (kj == j && ki < i + 1)) {
                        div_cell(sx0, sy0, ni, ki, kj)
                    } else {
                        sd0[at(ni, ki, kj)]
                    }) by {
                    lemma_at_bounds(ni, ki, kj);
                    lemma_at_inverse(ni, ki, kj);
                    lemma_at_inverse(ni, i as int, j as int);
                    assert(dprev[at(ni, ki, kj)] == (
                    if interior(ni, ki, kj) && (kj < j || (kj == j && ki < i)) {
                        div_cell(sx0, sy0, ni, ki, kj)
                    } else {
                        sd0[at(ni, ki, kj)]
                    }));
                }
                assert forall|ki: int, kj: int| 0 <= ki < ni && 0 <= kj < ni implies
                    #[trigger] p@[at(ni, ki, kj)] == (
                    if interior(ni, ki, kj) && (kj < j || (kj == j && ki < i + 1)) {
                        0
                    } else {
                        sp0[at(ni, ki, kj)]
                    }) by {
                    lemma_at_bounds(ni, ki, kj);
                    lemma_at_inverse(ni, ki, kj);
                    lemma_at_inverse(ni, i as int, j as int);
                    assert(pprev[at(ni, ki, kj)] == (
                    if interior(ni, ki, kj) && (kj < j || (kj == j && ki < i)) {
                        0
                    } else {
                        sp0[at(ni, ki, kj)]
                    }));
                }
            }
            i = i + 1;
        }
        j = j + 1;
    }

    proof {
        assert forall|k: int| 0 <= k < div@.len() implies div@[k] == div_field(sx0, sy0, sd0,
            ni)[k] by {
            lemma_index_decomp(ni, k);
        }
        assert(div@ =~= div_field(sx0, sy0, sd0, ni));
        assert forall|k: int| 0 <= k < p@.len() implies p@[k] == p_field(sp0, ni)[k] by {
            lemma_index_decomp(ni, k);
        }
        assert(p@ =~= p_field(sp0, ni));
    }

    set_bnd(BoundaryKind::Density, div);
    set_bnd(BoundaryKind::Density, p);

    let ghost dvb = (4 * GCAP as int) / (2 * ni) + 1;
    let ghost pb = dvb + SLACK as int;
    proof {
        vstd::arithmetic::div_mod::lemma_div_pos_is_pos(4 * GCAP as int, 2 * ni);
        assert forall|ii: int, jj: int| interior(ni, ii, jj) implies -dvb <= #[trigger]
            div_field(sx0, sy0, sd0, ni)[at(ni, ii, jj)] <= dvb by {
            lemma_at_bounds(ni, ii, jj);
            lemma_index_decomp(ni, at(ni, ii, jj));
            lemma_at_inverse(ni, ii, jj);
            lemma_div_cell_bound(sx0, sy0, ni, ii, jj, GCAP as int);
        }
        lemma_set_bnd_interior(BoundaryKind::Density, div_field(sx0, sy0, sd0, ni), ni, dvb);
        assert forall|ii: int, jj: int| interior(ni, ii, jj) implies -0 <= #[trigger]
            p_field(sp0, ni)[at(ni, ii, jj)] <= 0 by {
            lemma_at_bounds(ni, ii, jj);
            lemma_at_inverse(ni, ii, jj);
        }
        lemma_set_bnd_interior(BoundaryKind::Density, p_field(sp0, ni), ni, 0);
        lemma_in_range_mono(p@, 0, LCAP as int);
        assert(dvb <= LCAP as int);
        lemma_in_range_mono(div@, dvb, LCAP as int);
    }

    lin_solve(BoundaryKind::Density, p, div, ONE, 6 * ONE, iter, n);

    let ghost dvs = set_bnd_spec(BoundaryKind::Density, div_field(sx0, sy0, sd0, ni), ni);
    let ghost p0s = set_bnd_spec(BoundaryKind::Density, p_field(sp0, ni), ni);
    proof {
        lemma_in_range_mono(p0s, 0, pb);
        lemma_relax_bound(BoundaryKind::Density, p0s, dvs, ni, ONE as int, 6 * ONE as int,
            iter as nat, pb, dvb);
        assert(in_range(relax(BoundaryKind::Density, p0s, dvs, ni, ONE as int, 6 * ONE as int,
            iter as nat), pb));
        assert(p@ == relax(BoundaryKind::Density, p0s, dvs, ni, ONE as int, 6 * ONE as int,
            iter as nat));
        lemma_in_range_mono(p@, pb, VLIM as int);
    }
    set_bnd(BoundaryKind::Density, p);
    let ghost ps = p@;
    proof {
        lemma_set_bnd_in_range(BoundaryKind::Density,
            relax(BoundaryKind::Density, p0s, dvs, ni, ONE as int, 6 * ONE as int, iter as nat),
            ni, pb);
        assert(in_range(ps, pb));
        vstd::arithmetic::div_mod::lemma_div_is_ordered_by_denominator(4 * GCAP as int, 6,
            2 * ni);
        assert(2 * pb <= PDCAP as int);
    }

    let mut j2: usize = 1;
    while j2 < n - 1
        invariant
            veloc_x.wf(),
            veloc_y.wf(),
            p.wf(),
            veloc_x.n == n,
            veloc_y.n == n,
            p.n == n,
            3 <= n <= NMAX,
            n * n <= 16777216,
            ni == n as int,
            1 <= j2 <= n - 1,
            p@ == ps,
            ps.len() == n * n,
            sx0.len() == n * n,
            sy0.len() == n * n,
            in_range(sx0, GCAP as int),
            in_range(sy0, GCAP as int),
            in_range(ps, pb),
            pb == (4 * GCAP as int) / (2 * ni) + 1 + SLACK as int,
            0 <= pb,
            2 * pb <= PDCAP as int,
            forall|ki: int, kj: int|
                0 <= ki < ni && 0 <= kj < ni ==> #[trigger] veloc_x@[at(ni, ki, kj)] == (
                if interior(ni, ki, kj) && kj < j2 {
                    grad_x_cell(ps, sx0, ni, ki, kj)
                } else {
                    sx0[at(ni, ki, kj)]
                }),
            forall|ki: int, kj: int|
                0 <= ki < ni && 0 <= kj < ni ==> #[trigger] veloc_y@[at(ni, ki, kj)] == (
                if interior(ni, ki, kj) && kj < j2 {
                    grad_y_cell(ps, sy0, ni, ki, kj)
                } else {
                    sy0[at(ni, ki, kj)]
                }),
        decreases n - 1 - j2,
    {
        let mut i2: usize = 1;
        while i2 < n - 1
            invariant
                veloc_x.wf(),
                veloc_y.wf(),
                p.wf(),
                veloc_x.n == n,
                veloc_y.n == n,
                p.n == n,
                3 <= n <= NMAX,
                n * n <= 16777216,
                ni == n as int,
                1 <= j2 < n - 1,
                1 <= i2 <= n - 1,
                p@ == ps,
                ps.len() == n * n,
                sx0.len() == n * n,
                sy0.len() == n * n,
                in_range(sx0, GCAP as int),
                in_range(sy0, GCAP as int),
                in_range(ps, pb),
                pb == (4 * GCAP as int) / (2 * ni) + 1 + SLACK as int,
                0 <= pb,
                2 * pb <= PDCAP as int,
                forall|ki: int, kj: int|
                    0 <= ki < ni && 0 <= kj < ni ==> #[trigger] veloc_x@[at(ni, ki, kj)] == (
                    if interior(ni, ki, kj) && (kj < j2 || (kj == j2 && ki < i2)) {
                        grad_x_cell(ps, sx0, ni, ki, kj)
                    } else {
                        sx0[at(ni, ki, kj)]
                    }),
                forall|ki: int, kj: int|
                    0 <= ki < ni && 0 <= kj < ni ==> #[trigger] veloc_y@[at(ni, ki, kj)] == (
                    if interior(ni, ki, kj) && (kj < j2 || (kj == j2 && ki < i2)) {
                        grad_y_cell(ps, sy0, ni, ki, kj)
                    } else {
                        sy0[at(ni, ki, kj)]
                    }),
            decreases n - 1 - i2,
        {
            proof {
                lemma_at_bounds(ni, i2 as int, j2 as int);
                lemma_at_bounds(ni, i2 as int + 1, j2 as int);
                lemma_at_bounds(ni, i2 as int - 1, j2 as int);
                lemma_at_bounds(ni, i2 as int, j2 as int + 1);
                lemma_at_bounds(ni, i2 as int, j2 as int - 1);
                assert(-pb <= ps[at(ni, i2 as int + 1, j2 as int)] <= pb);
                assert(-pb <= ps[at(ni, i2 as int - 1, j2 as int)] <= pb);
                assert(-pb <= ps[at(ni, i2 as int, j2 as int + 1)] <= pb);
                assert(-pb <= ps[at(ni, i2 as int, j2 as int - 1)] <= pb);
                assert(-(GCAP as int) <= sx0[at(ni, i2 as int, j2 as int)] <= GCAP as int);
                assert(-(GCAP as int) <= sy0[at(ni, i2 as int, j2 as int)] <= GCAP as int);
            }
            let pe = p.get(i2 + 1, j2);
            let pw = p.get(i2 - 1, j2);
            let psu = p.get(i2, j2 + 1);
            let pno = p.get(i2, j2 - 1);
            let vx = veloc_x.get(i2, j2);
            let vy = veloc_y.get(i2, j2);
            let nvx = grad_value(vx, pe - pw, n);
            let nvy = grad_value(vy, psu - pno, n);
            let ghost xprev = veloc_x@;
            let ghost yprev = veloc_y@;
            veloc_x.set(i2, j2, nvx);
            veloc_y.set(i2, j2, nvy);
            proof {
                assert(nvx as int == grad_x_cell(ps, sx0, ni, i2 as int, j2 as int));
                assert(nvy as int == grad_y_cell(ps, sy0, ni, i2 as int, j2 as int));
                assert forall|ki: int, kj: int| 0 <= ki < ni && 0 <= kj < ni implies
                    #[trigger] veloc_x@[at(ni, ki, kj)] == (
                    if interior(ni, ki, kj) && (kj < j2 || (kj == j2 && ki < i2 + 1)) {
                        grad_x_cell(ps, sx0, ni, ki, kj)
                    } else {
                        sx0[at(ni, ki, kj)]
                    }) by {
                    lemma_at_bounds(ni, ki, kj);
                    lemma_at_inverse(ni, ki, kj);
                    lemma_at_inverse(ni, i2 as int, j2 as int);
                    assert(xprev[at(ni, ki, kj)] == (
                    if interior(ni, ki, kj) && (kj < j2 || (kj == j2 && ki < i2)) {
                        grad_x_cell(ps, sx0, ni, ki, kj)
                    } else {
                        sx0[at(ni, ki, kj)]
                    }));
                }
                assert forall|ki: int, kj: int| 0 <= ki < ni && 0 <= kj < ni implies
                    #[trigger] veloc_y@[at(ni, ki, kj)] == (
                    if interior(ni, ki, kj) && (kj < j2 || (kj == j2 && ki < i2 + 1)) {
                        grad_y_cell(ps, sy0, ni, ki, kj)
                    } else {
                        sy0[at(ni, ki, kj)]
                    }) by {
                    lemma_at_bounds(ni, ki, kj);
                    lemma_at_inverse(ni, ki, kj);
                    lemma_at_inverse(ni, i2 as int, j2 as int);
                    assert(yprev[at(ni, ki, kj)] == (
                    if interior(ni, ki, kj) && (kj < j2 || (kj == j2 && ki < i2)) {
                        grad_y_cell(ps, sy0, ni, ki, kj)
                    } else {
                        sy0[at(ni, ki, kj)]
                    }));
                }
            }
            i2 = i2 + 1;
        }
        j2 = j2 + 1;
    }

    let ghost gb = GCAP as int + pb * ni + 1;
    proof {
        assert forall|k: int| 0 <= k < veloc_x@.len() implies veloc_x@[k] == grad_x_field(ps, sx0,
            ni)[k] by {
            lemma_index_decomp(ni, k);
        }
        assert(veloc_x@ =~= grad_x_field(ps, sx0, ni));
        assert forall|k: int| 0 <= k < veloc_y@.len() implies veloc_y@[k] == grad_y_field(ps, sy0,
            ni)[k] by {
            lemma_index_decomp(ni, k);
        }
        assert(veloc_y@ =~= grad_y_field(ps, sy0, ni));
        vstd::arithmetic::mul::lemma_mul_nonnegative(pb, ni);
        vstd::arithmetic::mul::lemma_mul_inequality(pb, PDCAP as int, ni);
        assert(PDCAP as int * ni <= 0x3000000000000000) by (nonlinear_arith)
            requires
                ni <= 4096,
                PDCAP == 0x300000000000i64,
        ;
        assert forall|ii: int, jj: int| interior(ni, ii, jj) implies -gb <= #[trigger]
            grad_x_field(ps, sx0, ni)[at(ni, ii, jj)] <= gb by {
            lemma_at_bounds(ni, ii, jj);
            lemma_index_decomp(ni, at(ni, ii, jj));
            lemma_at_inverse(ni, ii, jj);
            lemma_grad_cell_bound(ps, sx0, ni, ii, jj, GCAP as int, pb);
        }
        assert forall|ii: int, jj: int| interior(ni, ii, jj) implies -gb <= #[trigger]
            grad_y_field(ps, sy0, ni)[at(ni, ii, jj)] <= gb by {
            lemma_at_bounds(ni, ii, jj);
            lemma_index_decomp(ni, at(ni, ii, jj));
            lemma_at_inverse(ni, ii, jj);
            lemma_grad_cell_bound(ps, sy0, ni, ii, jj, GCAP as int, pb);
        }
        assert forall|k: int| 0 <= k < grad_x_field(ps, sx0, ni).len() implies -(VLIM as int) <=
            #[trigger] grad_x_field(ps, sx0, ni)[k] <= VLIM as int by {
            lemma_index_decomp(ni, k);
            if interior(ni, k % ni, k / ni) {
                lemma_grad_cell_bound(ps, sx0, ni, k % ni, k / ni, GCAP as int, pb);
            }
        }
        assert forall|k: int| 0 <= k < grad_y_field(ps, sy0, ni).len() implies -(VLIM as int) <=
            #[trigger] grad_y_field(ps, sy0, ni)[k] <= VLIM as int by {
            lemma_index_decomp(ni, k);
            if interior(ni, k % ni, k / ni) {
                lemma_grad_cell_bound(ps, sy0, ni, k % ni, k / ni, GCAP as int, pb);
            }
        }
    }
    set_bnd(BoundaryKind::VelocityX, veloc_x);
    set_bnd(BoundaryKind::VelocityY, veloc_y);
}


/// Everything the projection produces is bounded in terms of the bound `g`
/// on the incoming velocities: the corrected velocities by `3g + 259n + 1`,
/// the pressure by `g + 259`, the divergence by `g + 1`.
pub proof fn lemma_project_bound(
    sx: Seq<int>,
    sy: Seq<int>,
    sp: Seq<int>,
    sd: Seq<int>,
    n: int,
    it: nat,
    g: int,
)
    requires
        3 <= n <= NMAX,
        sx.len() == n * n,
        sy.len() == n * n,
        sp.len() == n * n,
        sd.len() == n * n,
        in_range(sx, g),
        in_range(sy, g),
        0 <= g,
    ensures
        project_spec(sx, sy, sp, sd, n, it).0.len() == n * n,
        project_spec(sx, sy, sp, sd, n, it).1.len() == n * n,
        project_spec(sx, sy, sp, sd, n, it).2.len() == n * n,
        project_spec(sx, sy, sp, sd, n, it).3.len() == n * n,
        in_range(project_spec(sx, sy, sp, sd, n, it).0, 3 * g + 259 * n + 1),
        in_range(project_spec(sx, sy, sp, sd, n, it).1, 3 * g + 259 * n + 1),
        in_range(project_spec(sx, sy, sp, sd, n, it).2, g + 259),
        in_range(project_spec(sx, sy, sp, sd, n, it).3, g + 1),
{
    let dvb = (4 * g) / (2 * n) + 1;
    let pb = dvb + SLACK as int;
    vstd::arithmetic::div_mod::lemma_div_pos_is_pos(4 * g, 2 * n);
    assert forall|ii: int, jj: int| interior(n, ii, jj) implies -dvb <= #[trigger]
        div_field(sx, sy, sd, n)[at(n, ii, jj)] <= dvb by {
        lemma_at_bounds(n, ii, jj);
        lemma_index_decomp(n, at(n, ii, jj));
        lemma_at_inverse(n, ii, jj);
        lemma_div_cell_bound(sx, sy, n, ii, jj, g);
    }
    lemma_set_bnd_interior(BoundaryKind::Density, div_field(sx, sy, sd, n), n, dvb);
    let dv = set_bnd_spec(BoundaryKind::Density, div_field(sx, sy, sd, n), n);
    assert forall|ii: int, jj: int| interior(n, ii, jj) implies -0 <= #[trigger]
        p_field(sp, n)[at(n, ii, jj)] <= 0 by {
        lemma_at_bounds(n, ii, jj);
        lemma_at_inverse(n, ii, jj);
    }
    lemma_set_bnd_interior(BoundaryKind::Density, p_field(sp, n), n, 0);
    let p0 = set_bnd_spec(BoundaryKind::Density, p_field(sp, n), n);
    lemma_in_range_mono(p0, 0, pb);
    lemma_relax_bound(BoundaryKind::Density, p0, dv, n, ONE as int, 6 * ONE as int, it, pb, dvb);
    let pr = relax(BoundaryKind::Density, p0, dv, n, ONE as int, 6 * ONE as int, it);
    lemma_set_bnd_in_range(BoundaryKind::Density, pr, n, pb);
    let ps = set_bnd_spec(BoundaryKind::Density, pr, n);
    let gb = g + pb * n + 1;
    vstd::arithmetic::mul::lemma_mul_nonnegative(pb, n);
    assert forall|ii: int, jj: int| interior(n, ii, jj) implies -gb <= #[trigger]
        grad_x_field(ps, sx, n)[at(n, ii, jj)] <= gb by {
        lemma_at_bounds(n, ii, jj);
        lemma_index_decomp(n, at(n, ii, jj));
        lemma_at_inverse(n, ii, jj);
        lemma_grad_cell_bound(ps, sx, n, ii, jj, g, pb);
    }
    lemma_set_bnd_interior(BoundaryKind::VelocityX, grad_x_field(ps, sx, n), n, gb);
    assert forall|ii: int, jj: int| interior(n, ii, jj) implies -gb <= #[trigger]
        grad_y_field(ps, sy, n)[at(n, ii, jj)] <= gb by {
        lemma_at_bounds(n, ii, jj);
        lemma_index_decomp(n, at(n, ii, jj));
        lemma_at_inverse(n, ii, jj);
        lemma_grad_cell_bound(ps, sy, n, ii, jj, g, pb);
    }
    lemma_set_bnd_interior(BoundaryKind::VelocityY, grad_y_field(ps, sy, n), n, gb);
    lemma_fundamental_div_mod(4 * g, 2 * n);
    assert(((4 * g) / (2 * n)) * n + n <= 2 * g + n) by (nonlinear_arith)
        requires
            4 * g == (2 * n) * ((4 * g) / (2 * n)) + (4 * g) % (2 * n),
            0 <= (4 * g) % (2 * n),
            0 <= (4 * g) / (2 * n),
            3 <= n,
    ;
    assert(pb * n == ((4 * g) / (2 * n)) * n + 259 * n) by (nonlinear_arith)
        requires
            pb == (4 * g) / (2 * n) + 1 + 258,
    ;
    assert(gb <= 3 * g + 259 * n + 1);
    lemma_in_range_mono(set_bnd_spec(BoundaryKind::VelocityX, grad_x_field(ps, sx, n), n), gb,
        3 * g + 259 * n + 1);
    lemma_in_range_mono(set_bnd_spec(BoundaryKind::VelocityY, grad_y_field(ps, sy, n), n), gb,
        3 * g + 259 * n + 1);
    vstd::arithmetic::div_mod::lemma_div_is_ordered_by_denominator(4 * g, 6, 2 * n);
    lemma_div_is_ordered(4 * g, 6 * g, 6);
    lemma_div_multiples_vanish(g, 6);
    assert(6 * g == g * 6) by (nonlinear_arith);
    lemma_in_range_mono(ps, pb, g + 259);
    lemma_in_range_mono(dv, dvb, g + 1);
}

} // verus!
