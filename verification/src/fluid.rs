//! The fluid state: six grids plus configuration, the step orchestrator, and
//! the circular source injectors.

use vstd::prelude::*;
use crate::fixed::VLIM;
use crate::grid::{Array2DF, NMAX, at, in_range, lemma_at_bounds, lemma_grid_size};
use crate::boundary::{BoundaryKind, lemma_at_inverse};
use crate::solver::{
    ACAP, GCAP, LCAP, SLACK, TCAP, diff_coef, diffuse, diffuse_spec, lemma_in_range_mono,
    lemma_project_bound, lemma_relax_bound, lemma_set_bnd_in_range, project, project_spec, relax,
};
use crate::advect::{advect, advect_spec, lemma_advect_bound};


verus! {

/// Cap on every cell entering a step.
pub const SCAP: i64 = 0x1000000000;

/// Bound that every cell respects when a step returns.
pub const SOUT: i64 = 0x40000000000;

/// A full simulation state: density and velocity fields with their scratch
/// pairs, all square grids of one edge length, plus the configuration.
pub struct Fluid2D {
    pub size: usize,
    pub dt: i64,
    pub diff: i64,
    pub visc: i64,
    pub s: Array2DF,
    pub density: Array2DF,
    pub vx: Array2DF,
    pub vy: Array2DF,
    pub vx0: Array2DF,
    pub vy0: Array2DF,
}

/// Whether a cell lies in the injection disk of radius `r` around (x, y):
/// inside the half-open bounding box and within Euclidean distance `r`.
pub open spec fn inject_cond(x: int, y: int, r: int, i: int, j: int) -> bool {
    &&& x - r <= i < x + r
    &&& y - r <= j < y + r
    &&& (i - x) * (i - x) + (j - y) * (j - y) <= r * r
}

/// The six grids after one step, in the fixed operator order: diffuse both
/// velocities, project the scratch pair, self-advect, project again, diffuse
/// the density, advect the density through the corrected field.
pub open spec fn step_spec(
    s: Seq<int>,
    d: Seq<int>,
    vx: Seq<int>,
    vy: Seq<int>,
    vx0: Seq<int>,
    vy0: Seq<int>,
    n: int,
    dt: int,
    diffr: int,
    visc: int,
    it: nat,
) -> (Seq<int>, Seq<int>, Seq<int>, Seq<int>, Seq<int>, Seq<int>) {
    let vx0_1 = diffuse_spec(BoundaryKind::VelocityX, vx0, vx, n, dt, visc, it);
    let vy0_1 = diffuse_spec(BoundaryKind::VelocityY, vy0, vy, n, dt, visc, it);
    let pr1 = project_spec(vx0_1, vy0_1, vx, vy, n, it);
    let vx_1 = advect_spec(BoundaryKind::VelocityX, pr1.2, pr1.0, pr1.0, pr1.1, n, dt);
    let vy_1 = advect_spec(BoundaryKind::VelocityY, pr1.3, pr1.1, pr1.0, pr1.1, n, dt);
    let pr2 = project_spec(vx_1, vy_1, pr1.0, pr1.1, n, it);
    let s_1 = diffuse_spec(BoundaryKind::Density, s, d, n, dt, diffr, it);
    let d_1 = advect_spec(BoundaryKind::Density, d, s_1, pr2.0, pr2.1, n, dt);
    (s_1, d_1, pr2.0, pr2.1, pr2.2, pr2.3)
}

/// The diffusion coefficient of nonnegative inputs is nonnegative.
pub proof fn lemma_coef_nonneg(dt: int, rate: int, n: int)
    requires
        0 <= dt,
        0 <= rate,
        3 <= n,
    ensures
        0 <= diff_coef(dt, rate, n),
{
    vstd::arithmetic::mul::lemma_mul_nonnegative(dt, rate);
    vstd::arithmetic::mul::lemma_mul_nonnegative(n - 2, n - 2);
    vstd::arithmetic::mul::lemma_mul_nonnegative(dt * rate, (n - 2) * (n - 2));
    vstd::arithmetic::div_mod::lemma_div_pos_is_pos(dt * rate * ((n - 2) * (n - 2)),
        crate::fixed::ONE as int);
}


/// Add `amount` to the density of every cell within distance `radius` of
/// (x, y), the affected box clamped to the grid rather than left to wrap.
fn inject(g: &mut Array2DF, x: usize, y: usize, radius: usize, amount: i64)
    requires
        old(g).wf(),
        x < old(g).n,
        y < old(g).n,
        radius <= old(g).n,
        in_range(old(g)@, 0x100000000000000),
        -0x100000000000000 <= amount <= 0x100000000000000,
    ensures
        final(g).wf(),
        final(g).n == old(g).n,
        final(g)@.len() == old(g)@.len(),
        forall|ki: int, kj: int|
            0 <= ki < old(g).n as int && 0 <= kj < old(g).n as int
                ==> #[trigger] final(g)@[at(old(g).n as int, ki, kj)]
                == old(g)@[at(old(g).n as int, ki, kj)] + (
            if inject_cond(x as int, y as int, radius as int, ki, kj) {
                amount as int
            } else {
                0
            }),
{
    let n = g.n;
    let ghost ni = n as int;
    let ghost g0 = g@;
    proof {
        lemma_grid_size(ni);
    }
    let lo_i: usize = if radius > x { 0 } else { x - radius };
    let hi_i: usize = if x + radius > n { n } else { x + radius };
    let lo_j: usize = if radius > y { 0 } else { y - radius };
    let hi_j: usize = if y + radius > n { n } else { y + radius };
    let mut i: usize = lo_i;
    while i < hi_i
        invariant
            g.wf(),
            g.n == n,
            3 <= n <= NMAX,
            n * n <= 16777216,
            ni == n as int,
            x < n,
            y < n,
            radius <= n,
            lo_i as int == if radius > x { 0int } else { x as int - radius as int },
            hi_i as int == if x + radius > n { n as int } else { x as int + radius as int },
            lo_j as int == if radius > y { 0int } else { y as int - radius as int },
            hi_j as int == if y + radius > n { n as int } else { y as int + radius as int },
            lo_i <= i <= hi_i,
            g0.len() == n * n,
            in_range(g0, 0x100000000000000),
            -0x100000000000000 <= amount <= 0x100000000000000,
            forall|ki: int, kj: int|
                0 <= ki < ni && 0 <= kj < ni ==> #[trigger] g@[at(ni, ki, kj)] == g0[at(ni, ki,
                    kj)] + (
                if inject_cond(x as int, y as int, radius as int, ki, kj) && ki < i {
                    amount as int
                } else {
                    0
                }),
        decreases hi_i - i,
    {
        let mut j: usize = lo_j;
        while j < hi_j
            invariant
                g.wf(),
                g.n == n,
                3 <= n <= NMAX,
                n * n <= 16777216,
                ni == n as int,
                x < n,
                y < n,
                radius <= n,
                lo_i as int == if radius > x { 0int } else { x as int - radius as int },
                hi_i as int == if x + radius > n { n as int } else { x as int + radius as int },
                lo_j as int == if radius > y { 0int } else { y as int - radius as int },
                hi_j as int == if y + radius > n { n as int } else { y as int + radius as int },
                lo_i <= i < hi_i,
                lo_j <= j <= hi_j,
                g0.len() == n * n,
                in_range(g0, 0x100000000000000),
                -0x100000000000000 <= amount <= 0x100000000000000,
                forall|ki: int, kj: int|
                    0 <= ki < ni && 0 <= kj < ni ==> #[trigger] g@[at(ni, ki, kj)] == g0[at(ni,
                        ki, kj)] + (
                    if inject_cond(x as int, y as int, radius as int, ki, kj) && (ki < i || (ki
                        == i && kj < j)) {
                        amount as int
                    } else {
                        0
                    }),
            decreases hi_j - j,
        {
            let di: i64 = (i as i64) - (x as i64);
            let dj: i64 = (j as i64) - (y as i64);
            proof {
                assert(0 <= di * di <= 0x1000000 && 0 <= dj * dj <= 0x1000000
                    && 0 <= (radius as i64) * (radius as i64) <= 0x1000000) by (nonlinear_arith)
                    requires
                        -4096 <= di <= 4096,
                        -4096 <= dj <= 4096,
                        0 <= radius as i64 <= 4096,
                ;
            }
            let rr: i64 = (radius as i64) * (radius as i64);
            if di * di + dj * dj <= rr {
                proof {
                    lemma_at_bounds(ni, i as int, j as int);
                    assert(-0x100000000000000 <= g@[at(ni, i as int, j as int)]
                        <= 0x200000000000000);
                }
                let ghost prev = g@;
                let v = g.get(i, j);
                g.set(i, j, v + amount);
                proof {
                    assert forall|ki: int, kj: int| 0 <= ki < ni && 0 <= kj < ni implies
                        #[trigger] g@[at(ni, ki, kj)] == g0[at(ni, ki, kj)] + (
                        if inject_cond(x as int, y as int, radius as int, ki, kj) && (ki < i || (
                            ki == i && kj < j + 1)) {
                            amount as int
                        } else {
                            0
                        }) by {
                        lemma_at_bounds(ni, ki, kj);
                        lemma_at_inverse(ni, ki, kj);
                        lemma_at_inverse(ni, i as int, j as int);
                        assert(prev[at(ni, ki, kj)] == g0[at(ni, ki, kj)] + (
                        if inject_cond(x as int, y as int, radius as int, ki, kj) && (ki < i || (
                            ki == i && kj < j)) {
                            amount as int
                        } else {
                            0
                        }));
                    }
                }
            } else {
                proof {
                    assert forall|ki: int, kj: int| 0 <= ki < ni && 0 <= kj < ni implies
                        #[trigger] g@[at(ni, ki, kj)] == g0[at(ni, ki, kj)] + (
                        if inject_cond(x as int, y as int, radius as int, ki, kj) && (ki < i || (
                            ki == i && kj < j + 1)) {
                            amount as int
                        } else {
                            0
                        }) by {
                        lemma_at_bounds(ni, ki, kj);
                    }
                }
            }
            j = j + 1;
        }
        i = i + 1;
    }
}

impl Fluid2D {
    /// All six grids share the square edge `size` and the configuration sits
    /// within the solver's working caps.
    pub open spec fn wf(&self) -> bool {
        &&& self.s.wf()
        &&& self.density.wf()
        &&& self.vx.wf()
        &&& self.vy.wf()
        &&& self.vx0.wf()
        &&& self.vy0.wf()
        &&& self.s.n == self.size
        &&& self.density.n == self.size
        &&& self.vx.n == self.size
        &&& self.vy.n == self.size
        &&& self.vx0.n == self.size
        &&& self.vy0.n == self.size
        &&& 0 <= self.dt <= TCAP
        &&& 0 <= self.diff <= TCAP
        &&& 0 <= self.visc <= TCAP
        &&& diff_coef(self.dt as int, self.diff as int, self.size as int) <= ACAP as int
        &&& diff_coef(self.dt as int, self.visc as int, self.size as int) <= ACAP as int
    }

    /// Every grid's every cell has magnitude at most `cap`.
    pub open spec fn all_in_range(&self, cap: int) -> bool {
        &&& in_range(self.s@, cap)
        &&& in_range(self.density@, cap)
        &&& in_range(self.vx@, cap)
        &&& in_range(self.vy@, cap)
        &&& in_range(self.vx0@, cap)
        &&& in_range(self.vy0@, cap)
    }

    /// A fresh state: six zero grids and the given configuration.
    pub fn new(size: usize, dt: i64, diff: i64, visc: i64) -> (r: Fluid2D)
        requires
            3 <= size <= NMAX,
            0 <= dt <= TCAP,
            0 <= diff <= TCAP,
            0 <= visc <= TCAP,
            diff_coef(dt as int, diff as int, size as int) <= ACAP as int,
            diff_coef(dt as int, visc as int, size as int) <= ACAP as int,
        ensures
            r.wf(),
            r.size == size,
            r.dt == dt,
            r.diff == diff,
            r.visc == visc,
            forall|k: int| 0 <= k < r.s@.len() ==> #[trigger] r.s@[k] == 0,
            forall|k: int| 0 <= k < r.density@.len() ==> #[trigger] r.density@[k] == 0,
            forall|k: int| 0 <= k < r.vx@.len() ==> #[trigger] r.vx@[k] == 0,
            forall|k: int| 0 <= k < r.vy@.len() ==> #[trigger] r.vy@[k] == 0,
            forall|k: int| 0 <= k < r.vx0@.len() ==> #[trigger] r.vx0@[k] == 0,
            forall|k: int| 0 <= k < r.vy0@.len() ==> #[trigger] r.vy0@[k] == 0,
    {
        Fluid2D {
            size,
            dt,
            diff,
            visc,
            s: Array2DF::new(size, size),
            density: Array2DF::new(size, size),
            vx: Array2DF::new(size, size),
            vy: Array2DF::new(size, size),
            vx0: Array2DF::new(size, size),
            vy0: Array2DF::new(size, size),
        }
    }

    /// Whether every grid currently sits within `cap`.
    pub fn within(&self, cap: i64) -> (r: bool)
        requires
            self.wf(),
            0 <= cap,
        ensures
            r == self.all_in_range(cap as int),
    {
        self.s.bounded(cap) && self.density.bounded(cap) && self.vx.bounded(cap)
            && self.vy.bounded(cap) && self.vx0.bounded(cap) && self.vy0.bounded(cap)
    }


    /// Add `amount` of density within `radius` of (x, y).
    pub fn add_density(&mut self, x: usize, y: usize, radius: usize, amount: i64)
        requires
            old(self).wf(),
            x < old(self).size,
            y < old(self).size,
            radius <= old(self).size,
            in_range(old(self).density@, 0x100000000000000),
            -0x100000000000000 <= amount <= 0x100000000000000,
        ensures
            final(self).wf(),
            final(self).size == old(self).size,
            final(self).dt == old(self).dt,
            final(self).diff == old(self).diff,
            final(self).visc == old(self).visc,
            final(self).s == old(self).s,
            final(self).vx == old(self).vx,
            final(self).vy == old(self).vy,
            final(self).vx0 == old(self).vx0,
            final(self).vy0 == old(self).vy0,
            final(self).density@.len() == old(self).density@.len(),
            forall|ki: int, kj: int|
                0 <= ki < old(self).size as int && 0 <= kj < old(self).size as int
                    ==> #[trigger] final(self).density@[at(old(self).size as int, ki, kj)]
                    == old(self).density@[at(old(self).size as int, ki, kj)] + (
                if inject_cond(x as int, y as int, radius as int, ki, kj) {
                    amount as int
                } else {
                    0
                }),
    {
        inject(&mut self.density, x, y, radius, amount);
    }

    /// Add the velocity (amount_x, amount_y) within `radius` of (x, y).
    pub fn add_velocity(&mut self, x: usize, y: usize, radius: usize, amount_x: i64,
        amount_y: i64)
        requires
            old(self).wf(),
            x < old(self).size,
            y < old(self).size,
            radius <= old(self).size,
            in_range(old(self).vx@, 0x100000000000000),
            in_range(old(self).vy@, 0x100000000000000),
            -0x100000000000000 <= amount_x <= 0x100000000000000,
            -0x100000000000000 <= amount_y <= 0x100000000000000,
        ensures
            final(self).wf(),
            final(self).size == old(self).size,
            final(self).dt == old(self).dt,
            final(self).diff == old(self).diff,
            final(self).visc == old(self).visc,
            final(self).s == old(self).s,
            final(self).density == old(self).density,
            final(self).vx0 == old(self).vx0,
            final(self).vy0 == old(self).vy0,
            final(self).vx@.len() == old(self).vx@.len(),
            final(self).vy@.len() == old(self).vy@.len(),
            forall|ki: int, kj: int|
                0 <= ki < old(self).size as int && 0 <= kj < old(self).size as int
                    ==> #[trigger] final(self).vx@[at(old(self).size as int, ki, kj)]
                    == old(self).vx@[at(old(self).size as int, ki, kj)] + (
                if inject_cond(x as int, y as int, radius as int, ki, kj) {
                    amount_x as int
                } else {
                    0
                }),
            forall|ki: int, kj: int|
                0 <= ki < old(self).size as int && 0 <= kj < old(self).size as int
                    ==> #[trigger] final(self).vy@[at(old(self).size as int, ki, kj)]
                    == old(self).vy@[at(old(self).size as int, ki, kj)] + (
                if inject_cond(x as int, y as int, radius as int, ki, kj) {
                    amount_y as int
                } else {
                    0
                }),
    {
        inject(&mut self.vx, x, y, radius, amount_x);
        inject(&mut self.vy, x, y, radius, amount_y);
    }

    /// Advance the simulation by one timestep with the given relaxation
    /// iteration count.  The operator order is fixed and load-bearing.
    pub fn step(&mut self, iter: usize)
        requires
            old(self).wf(),
            old(self).all_in_range(SCAP as int),
        ensures
            final(self).wf(),
            final(self).size == old(self).size,
            final(self).dt == old(self).dt,
            final(self).diff == old(self).diff,
            final(self).visc == old(self).visc,
            ({
                let r = step_spec(old(self).s@, old(self).density@, old(self).vx@, old(self).vy@,
                    old(self).vx0@, old(self).vy0@, old(self).size as int, old(self).dt as int,
                    old(self).diff as int, old(self).visc as int, iter as nat);
                &&& final(self).s@ == r.0
                &&& final(self).density@ == r.1
                &&& final(self).vx@ == r.2
                &&& final(self).vy@ == r.3
                &&& final(self).vx0@ == r.4
                &&& final(self).vy0@ == r.5
            }),
            final(self).all_in_range(SOUT as int),
    {
        let n = self.size;
        let ghost ni = n as int;
        let ghost s_o = self.s@;
        let ghost d_o = self.density@;
        let ghost vx_o = self.vx@;
        let ghost vy_o = self.vy@;
        let ghost vx0_o = self.vx0@;
        let ghost vy0_o = self.vy0@;
        let ghost av = diff_coef(self.dt as int, self.visc as int, ni);
        let ghost ad = diff_coef(self.dt as int, self.diff as int, ni);
        let ghost b1 = SCAP as int + SLACK as int;
        proof {
            lemma_grid_size(ni);
            lemma_coef_nonneg(self.dt as int, self.visc as int, ni);
            lemma_coef_nonneg(self.dt as int, self.diff as int, ni);
            lemma_in_range_mono(vx0_o, SCAP as int, LCAP as int);
            lemma_in_range_mono(vx_o, SCAP as int, LCAP as int);
        }

        diffuse(BoundaryKind::VelocityX, &mut self.vx0, &self.vx, self.visc, self.dt, iter, n);
        let ghost vx0_1 = self.vx0@;
        proof {
            lemma_in_range_mono(vx0_o, SCAP as int, b1);
            lemma_relax_bound(BoundaryKind::VelocityX, vx0_o, vx_o, ni, av,
                crate::fixed::ONE as int + 6 * av, iter as nat, b1, SCAP as int);
            lemma_set_bnd_in_range(BoundaryKind::VelocityX,
                relax(BoundaryKind::VelocityX, vx0_o, vx_o, ni, av,
                    crate::fixed::ONE as int + 6 * av, iter as nat), ni, b1);
            lemma_in_range_mono(vy0_o, SCAP as int, LCAP as int);
            lemma_in_range_mono(vy_o, SCAP as int, LCAP as int);
        }
        diffuse(BoundaryKind::VelocityY, &mut self.vy0, &self.vy, self.visc, self.dt, iter, n);
        let ghost vy0_1 = self.vy0@;
        proof {
            lemma_in_range_mono(vy0_o, SCAP as int, b1);
            lemma_relax_bound(BoundaryKind::VelocityY, vy0_o, vy_o, ni, av,
                crate::fixed::ONE as int + 6 * av, iter as nat, b1, SCAP as int);
            lemma_set_bnd_in_range(BoundaryKind::VelocityY,
                relax(BoundaryKind::VelocityY, vy0_o, vy_o, ni, av,
                    crate::fixed::ONE as int + 6 * av, iter as nat), ni, b1);
            lemma_in_range_mono(vx0_1, b1, GCAP as int);
            lemma_in_range_mono(vy0_1, b1, GCAP as int);
            lemma_in_range_mono(vx_o, SCAP as int, VLIM as int);
            lemma_in_range_mono(vy_o, SCAP as int, VLIM as int);
        }

        project(&mut self.vx0, &mut self.vy0, &mut self.vx, &mut self.vy, iter, n);
        let ghost pr1 = project_spec(vx0_1, vy0_1, vx_o, vy_o, ni, iter as nat);
        let ghost g1 = 3 * b1 + 259 * ni + 1;
        proof {
            lemma_project_bound(vx0_1, vy0_1, vx_o, vy_o, ni, iter as nat, b1);
            lemma_in_range_mono(pr1.0, g1, LCAP as int);
            lemma_in_range_mono(pr1.1, g1, LCAP as int);
            lemma_in_range_mono(pr1.2, b1 + 259, VLIM as int);
            lemma_in_range_mono(pr1.3, b1 + 1, VLIM as int);
        }

        advect(BoundaryKind::VelocityX, &mut self.vx, &self.vx0, &self.vx0, &self.vy0, self.dt);
        let ghost vx_1 = self.vx@;
        proof {
            lemma_advect_bound(BoundaryKind::VelocityX, pr1.2, pr1.0, pr1.0, pr1.1, ni,
                self.dt as int, g1);
        }
        advect(BoundaryKind::VelocityY, &mut self.vy, &self.vy0, &self.vx0, &self.vy0, self.dt);
        let ghost vy_1 = self.vy@;
        let ghost v1 = g1 + 4;
        proof {
            lemma_advect_bound(BoundaryKind::VelocityY, pr1.3, pr1.1, pr1.0, pr1.1, ni,
                self.dt as int, g1);
            lemma_in_range_mono(vx_1, v1, GCAP as int);
            lemma_in_range_mono(vy_1, v1, GCAP as int);
            lemma_in_range_mono(pr1.0, g1, VLIM as int);
            lemma_in_range_mono(pr1.1, g1, VLIM as int);
        }

        project(&mut self.vx, &mut self.vy, &mut self.vx0, &mut self.vy0, iter, n);
        let ghost pr2 = project_spec(vx_1, vy_1, pr1.0, pr1.1, ni, iter as nat);
        let ghost g2 = 3 * v1 + 259 * ni + 1;
        proof {
            lemma_project_bound(vx_1, vy_1, pr1.0, pr1.1, ni, iter as nat, v1);
            lemma_in_range_mono(s_o, SCAP as int, LCAP as int);
            lemma_in_range_mono(d_o, SCAP as int, LCAP as int);
        }

        diffuse(BoundaryKind::Density, &mut self.s, &self.density, self.diff, self.dt, iter, n);
        let ghost s_1 = self.s@;
        proof {
            lemma_in_range_mono(s_o, SCAP as int, SCAP as int + SLACK as int);
            lemma_relax_bound(BoundaryKind::Density, s_o, d_o, ni, ad,
                crate::fixed::ONE as int + 6 * ad, iter as nat, SCAP as int + SLACK as int,
                SCAP as int);
            lemma_set_bnd_in_range(BoundaryKind::Density,
                relax(BoundaryKind::Density, s_o, d_o, ni, ad, crate::fixed::ONE as int + 6 * ad,
                    iter as nat), ni, SCAP as int + SLACK as int);
            lemma_in_range_mono(s_1, SCAP as int + SLACK as int, LCAP as int);
            lemma_in_range_mono(d_o, SCAP as int, VLIM as int);
            lemma_in_range_mono(pr2.0, g2, LCAP as int);
            lemma_in_range_mono(pr2.1, g2, LCAP as int);
        }
        advect(BoundaryKind::Density, &mut self.density, &self.s, &self.vx, &self.vy, self.dt);
        proof {
            lemma_advect_bound(BoundaryKind::Density, d_o, s_1, pr2.0, pr2.1, ni, self.dt as int,
                SCAP as int + SLACK as int);
            lemma_in_range_mono(self.density@, SCAP as int + SLACK as int + 4, SOUT as int);
            lemma_in_range_mono(self.s@, SCAP as int + SLACK as int, SOUT as int);
            lemma_in_range_mono(self.vx@, g2, SOUT as int);
            lemma_in_range_mono(self.vy@, g2, SOUT as int);
            lemma_in_range_mono(self.vx0@, v1 + 259, SOUT as int);
            lemma_in_range_mono(self.vy0@, v1 + 1, SOUT as int);
        }
    }
}

} // verus!
