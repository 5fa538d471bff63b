//! Global properties of the solver, stated and proved over the exact
//! operator specifications.

use vstd::prelude::*;
use vstd::arithmetic::div_mod::{lemma_div_of0, lemma_div_multiples_vanish};
use crate::fixed::ONE;
use crate::grid::{NMAX, at, lemma_at_bounds, lemma_grid_size, lemma_index_decomp};
use crate::boundary::{BoundaryKind, bnd_cell, set_bnd_spec, lemma_at_inverse};
use crate::solver::{
    diff_coef, diffuse_spec, div_field, grad_x_cell, grad_x_field, grad_y_cell, grad_y_field,
    interior, ls_val, nb_sum, p_field, project_spec, relax, sweep, sweep_row, sweep_rows,
};
use crate::advect::{adv_cell, adv_field, advect_spec, backtrace_spec, lemma_backtrace_cell};
use crate::fluid::step_spec;

verus! {

/// The all-zero grid of edge `n`.
pub open spec fn zero_grid(n: int) -> Seq<int> {
    Seq::new((n * n) as nat, |k: int| 0)
}

/// Relaxation with no iterations returns its input untouched; the diffusion
/// operator still runs the boundary enforcer once after the empty sweep loop.
pub proof fn lemma_zero_iterations(
    b: BoundaryKind,
    s: Seq<int>,
    s0: Seq<int>,
    n: int,
    a: int,
    c: int,
    dt: int,
    rate: int,
)
    ensures
        relax(b, s, s0, n, a, c, 0) == s,
        diffuse_spec(b, s, s0, n, dt, rate, 0) == set_bnd_spec(b, s, n),
{
}

/// The Gauss-Seidel update of all-zero grids writes zero.
pub proof fn lemma_ls_val_zero(n: int, a: int, c: int, i: int, j: int)
    requires
        3 <= n,
        1 <= i < n - 1,
        1 <= j < n - 1,
        c >= 1,
    ensures
        ls_val(zero_grid(n), zero_grid(n), n, a, c, i, j) == 0,
{
    lemma_at_bounds(n, i, j);
    lemma_at_bounds(n, i + 1, j);
    lemma_at_bounds(n, i - 1, j);
    lemma_at_bounds(n, i, j + 1);
    lemma_at_bounds(n, i, j - 1);
    assert(nb_sum(zero_grid(n), n, i, j) == 0);
    lemma_div_of0(ONE as int);
    lemma_div_of0(c);
}

/// A partial sweep of all-zero grids stays all-zero.
pub proof fn lemma_sweep_row_zero(n: int, a: int, c: int, j: int, i: int)
    requires
        3 <= n,
        1 <= j < n - 1,
        i <= n - 1,
        c >= 1,
    ensures
        sweep_row(zero_grid(n), zero_grid(n), n, a, c, j, i) == zero_grid(n),
    decreases i,
{
    if i <= 1 {
    } else {
        lemma_sweep_row_zero(n, a, c, j, i - 1);
        lemma_ls_val_zero(n, a, c, i - 1, j);
        lemma_at_bounds(n, i - 1, j);
        assert(zero_grid(n).update(at(n, i - 1, j), 0) =~= zero_grid(n));
    }
}

/// A full sweep of all-zero grids stays all-zero.
pub proof fn lemma_sweep_rows_zero(n: int, a: int, c: int, j: int)
    requires
        3 <= n,
        j <= n - 1,
        c >= 1,
    ensures
        sweep_rows(zero_grid(n), zero_grid(n), n, a, c, j) == zero_grid(n),
    decreases j,
{
    if j <= 1 {
    } else {
        lemma_sweep_rows_zero(n, a, c, j - 1);
        lemma_sweep_row_zero(n, a, c, j - 1, n - 1);
    }
}

/// The wall pass of the all-zero grid is all-zero.
pub proof fn lemma_set_bnd_zero(b: BoundaryKind, n: int)
    requires
        3 <= n <= NMAX,
    ensures
        set_bnd_spec(b, zero_grid(n), n) == zero_grid(n),
{
    lemma_grid_size(n);
    let r = set_bnd_spec(b, zero_grid(n), n);
    assert forall|k: int| 0 <= k < r.len() implies r[k] == zero_grid(n)[k] by {
        lemma_index_decomp(n, k);
        lemma_at_bounds(n, 1, 1);
        lemma_at_bounds(n, 1, n - 2);
        lemma_at_bounds(n, n - 2, 1);
        lemma_at_bounds(n, n - 2, n - 2);
        let ki = k % n;
        let kj = k / n;
        if 1 <= ki < n - 1 {
            lemma_at_bounds(n, ki, 1);
            lemma_at_bounds(n, ki, n - 2);
        }
        if 1 <= kj < n - 1 {
            lemma_at_bounds(n, 1, kj);
            lemma_at_bounds(n, n - 2, kj);
        }
        lemma_div_of0(2);
        assert(r[k] == bnd_cell(b, zero_grid(n), n, ki, kj));
    }
    assert(r =~= zero_grid(n));
}

/// Any number of relaxation rounds on all-zero grids stays all-zero.
pub proof fn lemma_relax_zero(b: BoundaryKind, n: int, a: int, c: int, it: nat)
    requires
        3 <= n <= NMAX,
        c >= 1,
    ensures
        relax(b, zero_grid(n), zero_grid(n), n, a, c, it) == zero_grid(n),
    decreases it,
{
    if it == 0 {
    } else {
        lemma_relax_zero(b, n, a, c, (it - 1) as nat);
        lemma_sweep_rows_zero(n, a, c, n - 1);
        lemma_set_bnd_zero(b, n);
    }
}

/// Diffusion of all-zero grids stays all-zero.
pub proof fn lemma_diffuse_zero(b: BoundaryKind, n: int, dt: int, rate: int, it: nat)
    requires
        3 <= n <= NMAX,
        0 <= diff_coef(dt, rate, n),
    ensures
        diffuse_spec(b, zero_grid(n), zero_grid(n), n, dt, rate, it) == zero_grid(n),
{
    lemma_relax_zero(b, n, diff_coef(dt, rate, n), ONE as int + 6 * diff_coef(dt, rate, n), it);
    lemma_set_bnd_zero(b, n);
}

/// Projection of all-zero fields returns all-zero fields.
pub proof fn lemma_project_zero(n: int, it: nat)
    requires
        3 <= n <= NMAX,
    ensures
        project_spec(zero_grid(n), zero_grid(n), zero_grid(n), zero_grid(n), n, it) == (
        zero_grid(n), zero_grid(n), zero_grid(n), zero_grid(n)),
{
    lemma_grid_size(n);
    let z = zero_grid(n);
    assert forall|k: int| 0 <= k < div_field(z, z, z, n).len() implies div_field(z, z, z, n)[k]
        == z[k] by {
        lemma_index_decomp(n, k);
        let ki = k % n;
        let kj = k / n;
        if interior(n, ki, kj) {
            lemma_at_bounds(n, ki + 1, kj);
            lemma_at_bounds(n, ki - 1, kj);
            lemma_at_bounds(n, ki, kj + 1);
            lemma_at_bounds(n, ki, kj - 1);
            lemma_div_of0(2 * n);
        }
    }
    assert(div_field(z, z, z, n) =~= z);
    assert forall|k: int| 0 <= k < p_field(z, n).len() implies p_field(z, n)[k] == z[k] by {
        lemma_index_decomp(n, k);
    }
    assert(p_field(z, n) =~= z);
    lemma_set_bnd_zero(BoundaryKind::Density, n);
    lemma_relax_zero(BoundaryKind::Density, n, ONE as int, 6 * ONE as int, it);
    assert forall|k: int| 0 <= k < grad_x_field(z, z, n).len() implies grad_x_field(z, z, n)[k]
        == z[k] by {
        lemma_index_decomp(n, k);
        let ki = k % n;
        let kj = k / n;
        if interior(n, ki, kj) {
            lemma_at_bounds(n, ki, kj);
            lemma_at_bounds(n, ki + 1, kj);
            lemma_at_bounds(n, ki - 1, kj);
            lemma_div_of0(2);
            assert(z[at(n, ki, kj)] == 0);
            assert(z[at(n, ki + 1, kj)] == 0);
            assert(z[at(n, ki - 1, kj)] == 0);
            assert((0 - 0) * n == 0) by (nonlinear_arith);
            assert(grad_x_cell(z, z, n, ki, kj) == 0);
        }
    }
    assert(grad_x_field(z, z, n) =~= z);
    assert forall|k: int| 0 <= k < grad_y_field(z, z, n).len() implies grad_y_field(z, z, n)[k]
        == z[k] by {
        lemma_index_decomp(n, k);
        let ki = k % n;
        let kj = k / n;
        if interior(n, ki, kj) {
            lemma_at_bounds(n, ki, kj);
            lemma_at_bounds(n, ki, kj + 1);
            lemma_at_bounds(n, ki, kj - 1);
            lemma_div_of0(2);
            assert(z[at(n, ki, kj)] == 0);
            assert(z[at(n, ki, kj + 1)] == 0);
            assert(z[at(n, ki, kj - 1)] == 0);
            assert((0 - 0) * n == 0) by (nonlinear_arith);
            assert(grad_y_cell(z, z, n, ki, kj) == 0);
        }
    }
    assert(grad_y_field(z, z, n) =~= z);
    lemma_set_bnd_zero(BoundaryKind::VelocityX, n);
    lemma_set_bnd_zero(BoundaryKind::VelocityY, n);
}

/// A product with a zero factor vanishes under the fixed-point scale.
pub proof fn lemma_fmul_zero()
    ensures
        forall|t: int| #[trigger] crate::fixed::fmul(t, 0) == 0,
{
    assert forall|t: int| #[trigger] crate::fixed::fmul(t, 0) == 0 by {
        assert(t * 0 == 0) by (nonlinear_arith);
        lemma_div_of0(ONE as int);
    }
}

/// Advection of an all-zero source grid writes an all-zero grid, whatever
/// the velocities.
pub proof fn lemma_advect_zero(b: BoundaryKind, sx: Seq<int>, sy: Seq<int>, n: int, dt: int)
    requires
        3 <= n <= NMAX,
        sx.len() == n * n,
        sy.len() == n * n,
    ensures
        advect_spec(b, zero_grid(n), zero_grid(n), sx, sy, n, dt) == zero_grid(n),
{
    lemma_grid_size(n);
    let z = zero_grid(n);
    assert forall|k: int| 0 <= k < adv_field(z, z, sx, sy, n, dt).len() implies adv_field(z, z,
        sx, sy, n, dt)[k] == z[k] by {
        lemma_index_decomp(n, k);
        let ki = k % n;
        let kj = k / n;
        if interior(n, ki, kj) {
            lemma_at_bounds(n, ki, kj);
            let dtx = dt * (n - 2);
            let xf = backtrace_spec(ki, dtx, sx[at(n, ki, kj)], n);
            let yf = backtrace_spec(kj, dtx, sy[at(n, ki, kj)], n);
            vstd::arithmetic::mul::lemma_mul_nonnegative(n - 2, ONE as int);
            lemma_backtrace_cell(xf, n);
            lemma_backtrace_cell(yf, n);
            let i0 = xf / (ONE as int);
            let j0 = yf / (ONE as int);
            lemma_at_bounds(n, i0, j0);
            lemma_at_bounds(n, i0, j0 + 1);
            lemma_at_bounds(n, i0 + 1, j0);
            lemma_at_bounds(n, i0 + 1, j0 + 1);
            lemma_div_of0(ONE as int);
            lemma_fmul_zero();
            assert(z[at(n, i0, j0)] == 0);
            assert(z[at(n, i0, j0 + 1)] == 0);
            assert(z[at(n, i0 + 1, j0)] == 0);
            assert(z[at(n, i0 + 1, j0 + 1)] == 0);
            assert(adv_cell(z, sx, sy, n, dt, ki, kj) == 0);
        }
    }
    assert(adv_field(z, z, sx, sy, n, dt) =~= z);
    lemma_set_bnd_zero(b, n);
}

/// With no sources injected, every field stays all-zero through a step.
pub proof fn lemma_step_zero(n: int, dt: int, diffr: int, visc: int, it: nat)
    requires
        3 <= n <= NMAX,
        0 <= diff_coef(dt, visc, n),
        0 <= diff_coef(dt, diffr, n),
    ensures
        step_spec(zero_grid(n), zero_grid(n), zero_grid(n), zero_grid(n), zero_grid(n),
            zero_grid(n), n, dt, diffr, visc, it) == (zero_grid(n), zero_grid(n), zero_grid(n),
        zero_grid(n), zero_grid(n), zero_grid(n)),
{
    lemma_grid_size(n);
    lemma_diffuse_zero(BoundaryKind::VelocityX, n, dt, visc, it);
    lemma_diffuse_zero(BoundaryKind::VelocityY, n, dt, visc, it);
    lemma_project_zero(n, it);
    lemma_advect_zero(BoundaryKind::VelocityX, zero_grid(n), zero_grid(n), n, dt);
    lemma_advect_zero(BoundaryKind::VelocityY, zero_grid(n), zero_grid(n), n, dt);
    lemma_diffuse_zero(BoundaryKind::Density, n, dt, diffr, it);
    lemma_advect_zero(BoundaryKind::Density, zero_grid(n), zero_grid(n), n, dt);
}

/// The state after `k` consecutive steps.
pub open spec fn steps_spec(
    t: (Seq<int>, Seq<int>, Seq<int>, Seq<int>, Seq<int>, Seq<int>),
    n: int,
    dt: int,
    diffr: int,
    visc: int,
    it: nat,
    k: nat,
) -> (Seq<int>, Seq<int>, Seq<int>, Seq<int>, Seq<int>, Seq<int>)
    decreases k,
{
    if k == 0 {
        t
    } else {
        let p = steps_spec(t, n, dt, diffr, visc, it, (k - 1) as nat);
        step_spec(p.0, p.1, p.2, p.3, p.4, p.5, n, dt, diffr, visc, it)
    }
}

/// With no sources injected, every field stays all-zero after any number of
/// steps.
pub proof fn lemma_steps_zero(n: int, dt: int, diffr: int, visc: int, it: nat, k: nat)
    requires
        3 <= n <= NMAX,
        0 <= diff_coef(dt, visc, n),
        0 <= diff_coef(dt, diffr, n),
    ensures
        steps_spec((zero_grid(n), zero_grid(n), zero_grid(n), zero_grid(n), zero_grid(n),
            zero_grid(n)), n, dt, diffr, visc, it, k) == (zero_grid(n), zero_grid(n),
        zero_grid(n), zero_grid(n), zero_grid(n), zero_grid(n)),
    decreases k,
{
    if k == 0 {
    } else {
        lemma_steps_zero(n, dt, diffr, visc, it, (k - 1) as nat);
        lemma_step_zero(n, dt, diffr, visc, it);
    }
}

/// Diffusion identity: with a zero timestep the coefficient vanishes and
/// relaxation copies the source's interior exactly, for any positive number
/// of iterations.
pub proof fn lemma_diffusion_identity(
    b: BoundaryKind,
    s: Seq<int>,
    s0: Seq<int>,
    n: int,
    rate: int,
    it: nat,
    i: int,
    j: int,
)
    requires
        3 <= n <= NMAX,
        s.len() == n * n,
        s0.len() == n * n,
        interior(n, i, j),
        it >= 1,
    ensures
        diff_coef(0, rate, n) == 0,
        diffuse_spec(b, s, s0, n, 0, rate, it)[at(n, i, j)] == s0[at(n, i, j)],
{
    lemma_div_of0(ONE as int);
    let r = relax(b, s, s0, n, 0, ONE as int, it);
    lemma_relax_interior_copy(b, s, s0, n, it, i, j);
    lemma_at_bounds(n, i, j);
    lemma_at_inverse(n, i, j);
    lemma_grid_size(n);
    lemma_relax_len(b, s, s0, n, 0, ONE as int, it);
    assert(diffuse_spec(b, s, s0, n, 0, rate, it)[at(n, i, j)] == bnd_cell(b, r, n, i, j));
}

/// Relaxation keeps its length.
pub proof fn lemma_relax_len(b: BoundaryKind, s: Seq<int>, s0: Seq<int>, n: int, a: int, c: int,
    it: nat)
    requires
        3 <= n,
        s.len() == n * n,
    ensures
        relax(b, s, s0, n, a, c, it).len() == n * n,
    decreases it,
{
    if it == 0 {
    } else {
        lemma_relax_len(b, s, s0, n, a, c, (it - 1) as nat);
        lemma_sweep_len(b, relax(b, s, s0, n, a, c, (it - 1) as nat), s0, n, a, c, n - 1);
    }
}

/// A partial sweep keeps its length.
pub proof fn lemma_sweep_len(b: BoundaryKind, s: Seq<int>, s0: Seq<int>, n: int, a: int, c: int,
    j: int)
    requires
        3 <= n,
        j <= n - 1,
        s.len() == n * n,
    ensures
        sweep_rows(s, s0, n, a, c, j).len() == n * n,
    decreases j,
{
    if j <= 1 {
    } else {
        lemma_sweep_len(b, s, s0, n, a, c, j - 1);
        lemma_sweep_row_len(sweep_rows(s, s0, n, a, c, j - 1), s0, n, a, c, j - 1, n - 1);
    }
}

/// A partial sweep row keeps its length.
pub proof fn lemma_sweep_row_len(s: Seq<int>, s0: Seq<int>, n: int, a: int, c: int, j: int,
    i: int)
    requires
        3 <= n,
        0 <= j < n,
        i <= n - 1,
        s.len() == n * n,
    ensures
        sweep_row(s, s0, n, a, c, j, i).len() == n * n,
    decreases i,
{
    if i <= 1 {
    } else {
        lemma_sweep_row_len(s, s0, n, a, c, j, i - 1);
        lemma_at_bounds(n, i - 1, j);
    }
}

/// With `a == 0` and `c == ONE`, a sweep writes the source value into each
/// interior cell it visits.
pub proof fn lemma_sweep_row_copy(s: Seq<int>, s0: Seq<int>, n: int, j: int, i: int, ci: int,
    cj: int)
    requires
        3 <= n,
        s.len() == n * n,
        s0.len() == n * n,
        1 <= j < n - 1,
        i <= n - 1,
        0 <= ci < n,
        0 <= cj < n,
    ensures
        sweep_row(s, s0, n, 0, ONE as int, j, i)[at(n, ci, cj)] == (
        if cj == j && 1 <= ci < i {
            s0[at(n, ci, cj)]
        } else {
            s[at(n, ci, cj)]
        }),
    decreases i,
{
    lemma_at_bounds(n, ci, cj);
    lemma_at_inverse(n, ci, cj);
    if i <= 1 {
    } else {
        lemma_sweep_row_copy(s, s0, n, j, i - 1, ci, cj);
        let prev = sweep_row(s, s0, n, 0, ONE as int, j, i - 1);
        lemma_sweep_row_len(s, s0, n, 0, ONE as int, j, i - 1);
        lemma_at_bounds(n, i - 1, j);
        lemma_at_inverse(n, i - 1, j);
        lemma_at_bounds(n, i - 1, j);
        lemma_ls_val_copy(prev, s0, n, i - 1, j);
    }
}

/// The Gauss-Seidel update with `a == 0`, `c == ONE` returns the source cell.
pub proof fn lemma_ls_val_copy(s: Seq<int>, s0: Seq<int>, n: int, i: int, j: int)
    requires
        3 <= n,
        s0.len() == n * n,
        1 <= i < n - 1,
        1 <= j < n - 1,
    ensures
        ls_val(s, s0, n, 0, ONE as int, i, j) == s0[at(n, i, j)],
{
    lemma_at_bounds(n, i, j);
    lemma_div_of0(ONE as int);
    lemma_div_multiples_vanish(s0[at(n, i, j)], ONE as int);
    assert(s0[at(n, i, j)] * (ONE as int) == (ONE as int) * s0[at(n, i, j)])
        by (nonlinear_arith);
}

/// With `a == 0` every full sweep copies the source's interior.
pub proof fn lemma_sweep_rows_copy(s: Seq<int>, s0: Seq<int>, n: int, j: int, ci: int, cj: int)
    requires
        3 <= n,
        s.len() == n * n,
        s0.len() == n * n,
        j <= n - 1,
        0 <= ci < n,
        0 <= cj < n,
    ensures
        sweep_rows(s, s0, n, 0, ONE as int, j)[at(n, ci, cj)] == (
        if 1 <= cj < j && 1 <= ci < n - 1 {
            s0[at(n, ci, cj)]
        } else {
            s[at(n, ci, cj)]
        }),
    decreases j,
{
    if j <= 1 {
    } else {
        lemma_sweep_rows_copy(s, s0, n, j - 1, ci, cj);
        let prev = sweep_rows(s, s0, n, 0, ONE as int, j - 1);
        lemma_sweep_len(BoundaryKind::Density, s, s0, n, 0, ONE as int, j - 1);
        lemma_sweep_row_copy(prev, s0, n, j - 1, n - 1, ci, cj);
    }
}

/// With `a == 0` the relaxed grid's interior equals the source's interior
/// after at least one round.
pub proof fn lemma_relax_interior_copy(b: BoundaryKind, s: Seq<int>, s0: Seq<int>, n: int,
    it: nat, ci: int, cj: int)
    requires
        3 <= n <= NMAX,
        s.len() == n * n,
        s0.len() == n * n,
        it >= 1,
        interior(n, ci, cj),
    ensures
        relax(b, s, s0, n, 0, ONE as int, it)[at(n, ci, cj)] == s0[at(n, ci, cj)],
    decreases it,
{
    lemma_grid_size(n);
    let prev = relax(b, s, s0, n, 0, ONE as int, (it - 1) as nat);
    lemma_relax_len(b, s, s0, n, 0, ONE as int, (it - 1) as nat);
    lemma_sweep_rows_copy(prev, s0, n, n - 1, ci, cj);
    lemma_sweep_len(b, prev, s0, n, 0, ONE as int, n - 1);
    lemma_at_bounds(n, ci, cj);
    lemma_at_inverse(n, ci, cj);
    assert(relax(b, s, s0, n, 0, ONE as int, it)[at(n, ci, cj)] == bnd_cell(b, sweep(prev, s0, n,
        0, ONE as int), n, ci, cj));
}

/// Boundary mirroring: after the wall pass of the horizontal-velocity kind,
/// each left or right wall cell is the negation of its interior neighbour;
/// for the scalar kind it is a plain copy.
pub proof fn lemma_boundary_mirroring(s: Seq<int>, n: int, j: int)
    requires
        3 <= n <= NMAX,
        s.len() == n * n,
        1 <= j < n - 1,
    ensures
        set_bnd_spec(BoundaryKind::VelocityX, s, n)[at(n, 0, j)] == -set_bnd_spec(
            BoundaryKind::VelocityX, s, n)[at(n, 1, j)],
        set_bnd_spec(BoundaryKind::VelocityX, s, n)[at(n, n - 1, j)] == -set_bnd_spec(
            BoundaryKind::VelocityX, s, n)[at(n, n - 2, j)],
        set_bnd_spec(BoundaryKind::Density, s, n)[at(n, 0, j)] == set_bnd_spec(
            BoundaryKind::Density, s, n)[at(n, 1, j)],
        set_bnd_spec(BoundaryKind::Density, s, n)[at(n, n - 1, j)] == set_bnd_spec(
            BoundaryKind::Density, s, n)[at(n, n - 2, j)],
{
    lemma_grid_size(n);
    lemma_at_bounds(n, 0, j);
    lemma_at_bounds(n, 1, j);
    lemma_at_bounds(n, n - 1, j);
    lemma_at_bounds(n, n - 2, j);
    lemma_at_inverse(n, 0, j);
    lemma_at_inverse(n, 1, j);
    lemma_at_inverse(n, n - 1, j);
    lemma_at_inverse(n, n - 2, j);
}

} // verus!
