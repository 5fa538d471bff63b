//! Wall conditions on a grid's border cells.
//!
//! Each non-corner border cell copies the adjacent interior value, negated
//! only when the wall is perpendicular to the field's kind; each corner is the
//! floor-mean of its two adjacent border cells.

use vstd::prelude::*;
use vstd::arithmetic::div_mod::lemma_fundamental_div_mod_converse;
use crate::fixed::VLIM;
use crate::grid::{Array2DF, NMAX, at, in_range, lemma_at_bounds, lemma_grid_size};

verus! {

/// The closed set of field kinds a wall condition can serve.
#[derive(Clone, Copy, PartialEq, Eq, Structural)]
pub enum BoundaryKind {
    /// A scalar field: walls copy without a sign change.
    Density,
    /// Horizontal velocity: the left and right walls flip the sign.
    VelocityX,
    /// Vertical velocity: the top and bottom walls flip the sign.
    VelocityY,
}

/// Value mirrored across a left or right wall.
pub open spec fn hflip(b: BoundaryKind, v: int) -> int {
    if b == BoundaryKind::VelocityX {
        -v
    } else {
        v
    }
}

/// Value mirrored across a top or bottom wall.
pub open spec fn vflip(b: BoundaryKind, v: int) -> int {
    if b == BoundaryKind::VelocityY {
        -v
    } else {
        v
    }
}

/// The value cell (i, j) holds once the wall condition has been enforced on
/// the pre-state `s`: interior cells keep their value, edges mirror the
/// adjacent interior cell, corners average their two adjacent edge values.
pub open spec fn bnd_cell(b: BoundaryKind, s: Seq<int>, n: int, i: int, j: int) -> int {
    if i == 0 && j == 0 {
        (vflip(b, s[at(n, 1, 1)]) + hflip(b, s[at(n, 1, 1)])) / 2
    } else if i == 0 && j == n - 1 {
        (vflip(b, s[at(n, 1, n - 2)]) + hflip(b, s[at(n, 1, n - 2)])) / 2
    } else if i == n - 1 && j == 0 {
        (vflip(b, s[at(n, n - 2, 1)]) + hflip(b, s[at(n, n - 2, 1)])) / 2
    } else if i == n - 1 && j == n - 1 {
        (vflip(b, s[at(n, n - 2, n - 2)]) + hflip(b, s[at(n, n - 2, n - 2)])) / 2
    } else if j == 0 {
        vflip(b, s[at(n, i, 1)])
    } else if j == n - 1 {
        vflip(b, s[at(n, i, n - 2)])
    } else if i == 0 {
        hflip(b, s[at(n, 1, j)])
    } else if i == n - 1 {
        hflip(b, s[at(n, n - 2, j)])
    } else {
        s[at(n, i, j)]
    }
}

/// The whole grid after the wall condition has been enforced.
pub open spec fn set_bnd_spec(b: BoundaryKind, s: Seq<int>, n: int) -> Seq<int> {
    Seq::new(s.len(), |k: int| bnd_cell(b, s, n, k % n, k / n))
}

/// A flat index decomposes uniquely into its column and row.
pub proof fn lemma_at_inverse(n: int, i: int, j: int)
    requires
        0 < n,
        0 <= i < n,
        0 <= j,
    ensures
        at(n, i, j) % n == i,
        at(n, i, j) / n == j,
{
    lemma_fundamental_div_mod_converse(at(n, i, j), n, j, i);
}

/// Grid state while the two edge sweeps are under way: columns 1..p1 of the
/// top and bottom edges and rows 1..p2 of the left and right edges are done.
pub open spec fn bnd_partial(
    b: BoundaryKind,
    s: Seq<int>,
    n: int,
    p1: int,
    p2: int,
    i: int,
    j: int,
) -> int {
    if j == 0 && 1 <= i < p1 {
        bnd_cell(b, s, n, i, j)
    } else if j == n - 1 && 1 <= i < p1 {
        bnd_cell(b, s, n, i, j)
    } else if i == 0 && 1 <= j < p2 {
        bnd_cell(b, s, n, i, j)
    } else if i == n - 1 && 1 <= j < p2 {
        bnd_cell(b, s, n, i, j)
    } else {
        s[at(n, i, j)]
    }
}

/// Sign treatment of a top or bottom wall for the given kind.
fn flip_v(b: BoundaryKind, v: i64) -> (r: i64)
    requires
        -VLIM <= v <= VLIM,
    ensures
        r as int == vflip(b, v as int),
{
    match b {
        BoundaryKind::VelocityY => -v,
        _ => v,
    }
}

/// Sign treatment of a left or right wall for the given kind.
fn flip_h(b: BoundaryKind, v: i64) -> (r: i64)
    requires
        -VLIM <= v <= VLIM,
    ensures
        r as int == hflip(b, v as int),
{
    match b {
        BoundaryKind::VelocityX => -v,
        _ => v,
    }
}

/// Enforce the wall condition of kind `b` on every border cell of `x`.
pub fn set_bnd(b: BoundaryKind, x: &mut Array2DF)
    requires
        old(x).wf(),
        in_range(old(x)@, VLIM as int),
    ensures
        final(x).wf(),
        final(x).n == old(x).n,
        final(x)@ == set_bnd_spec(b, old(x)@, old(x).n as int),
{
    let n: usize = x.n;
    let ghost s0 = x@;
    let ghost ni = n as int;
    proof {
        lemma_grid_size(ni);
    }

    let mut i: usize = 1;
    while i < n - 1
        invariant
            x.wf(),
            x.n == n,
            3 <= n <= NMAX,
            n * n <= 16777216,
            s0.len() == n * n,
            x@.len() == n * n,
            in_range(s0, VLIM as int),
            1 <= i <= n - 1,
            ni == n as int,
            forall|ki: int, kj: int|
                0 <= ki < ni && 0 <= kj < ni ==> #[trigger] x@[at(ni, ki, kj)]
                    == bnd_partial(b, s0, ni, i as int, 1, ki, kj),
        decreases n - 1 - i,
    {
        proof {
            lemma_at_bounds(ni, i as int, 1);
            lemma_at_bounds(ni, i as int, 0);
            lemma_at_bounds(ni, i as int, ni - 2);
            lemma_at_bounds(ni, i as int, ni - 1);
        }
        let ghost prev = x@;
        let v1 = x.get(i, 1);
        let w1 = flip_v(b, v1);
        x.set(i, 0, w1);
        proof {
            lemma_at_inverse(ni, i as int, 0);
            lemma_at_inverse(ni, i as int, ni - 2);
            assert(at(ni, i as int, ni - 2) != at(ni, i as int, 0));
            assert(x@[at(ni, i as int, ni - 2)] == prev[at(ni, i as int, ni - 2)]);
        }
        let v2 = x.get(i, n - 2);
        let w2 = flip_v(b, v2);
        x.set(i, n - 1, w2);
        proof {
            assert(prev[at(ni, i as int, 1)] == bnd_partial(b, s0, ni, i as int, 1, i as int, 1));
            assert(prev[at(ni, i as int, ni - 2)] == bnd_partial(
                b, s0, ni, i as int, 1, i as int, ni - 2,
            ));
            assert(w1 as int == bnd_cell(b, s0, ni, i as int, 0));
            assert(w2 as int == bnd_cell(b, s0, ni, i as int, ni - 1));
            assert(x@ == prev.update(at(ni, i as int, 0), w1 as int).update(
                at(ni, i as int, ni - 1),
                w2 as int,
            ));
            assert forall|ki: int, kj: int| 0 <= ki < ni && 0 <= kj < ni implies #[trigger] x@[at(
                ni,
                ki,
                kj,
            )] == bnd_partial(b, s0, ni, i as int + 1, 1, ki, kj) by {
                lemma_at_bounds(ni, ki, kj);
                lemma_at_inverse(ni, ki, kj);
                lemma_at_inverse(ni, i as int, 0);
                lemma_at_inverse(ni, i as int, ni - 1);
                assert(prev[at(ni, ki, kj)] == bnd_partial(b, s0, ni, i as int, 1, ki, kj));
                if ki == i as int && kj == 0 {
                    assert(x@[at(ni, ki, kj)] == w1 as int);
                } else if ki == i as int && kj == ni - 1 {
                    assert(x@[at(ni, ki, kj)] == w2 as int);
                } else {
                    assert(at(ni, ki, kj) != at(ni, i as int, 0));
                    assert(at(ni, ki, kj) != at(ni, i as int, ni - 1));
                    assert(x@[at(ni, ki, kj)] == prev[at(ni, ki, kj)]);
                }
            }
        }
        i = i + 1;
    }

    let mut j: usize = 1;
    while j < n - 1
        invariant
            x.wf(),
            x.n == n,
            3 <= n <= NMAX,
            n * n <= 16777216,
            s0.len() == n * n,
            x@.len() == n * n,
            in_range(s0, VLIM as int),
            1 <= j <= n - 1,
            ni == n as int,
            forall|ki: int, kj: int|
                0 <= ki < ni && 0 <= kj < ni ==> #[trigger] x@[at(ni, ki, kj)]
                    == bnd_partial(b, s0, ni, ni - 1, j as int, ki, kj),
        decreases n - 1 - j,
    {
        proof {
            lemma_at_bounds(ni, 1, j as int);
            lemma_at_bounds(ni, 0, j as int);
            lemma_at_bounds(ni, ni - 2, j as int);
            lemma_at_bounds(ni, ni - 1, j as int);
        }
        let ghost prev = x@;
        let v1 = x.get(1, j);
        let w1 = flip_h(b, v1);
        x.set(0, j, w1);
        proof {
            lemma_at_inverse(ni, 0, j as int);
            lemma_at_inverse(ni, ni - 2, j as int);
            assert(at(ni, ni - 2, j as int) != at(ni, 0, j as int));
            assert(x@[at(ni, ni - 2, j as int)] == prev[at(ni, ni - 2, j as int)]);
        }
        let v2 = x.get(n - 2, j);
        let w2 = flip_h(b, v2);
        x.set(n - 1, j, w2);
        proof {
            assert(prev[at(ni, 1, j as int)] == bnd_partial(b, s0, ni, ni - 1, j as int, 1, j as int));
            assert(prev[at(ni, ni - 2, j as int)] == bnd_partial(
                b, s0, ni, ni - 1, j as int, ni - 2, j as int,
            ));
            assert(w1 as int == bnd_cell(b, s0, ni, 0, j as int));
            assert(w2 as int == bnd_cell(b, s0, ni, ni - 1, j as int));
            assert(x@ == prev.update(at(ni, 0, j as int), w1 as int).update(
                at(ni, ni - 1, j as int),
                w2 as int,
            ));
            assert forall|ki: int, kj: int| 0 <= ki < ni && 0 <= kj < ni implies #[trigger] x@[at(
                ni,
                ki,
                kj,
            )] == bnd_partial(b, s0, ni, ni - 1, j as int + 1, ki, kj) by {
                lemma_at_bounds(ni, ki, kj);
                lemma_at_inverse(ni, ki, kj);
                lemma_at_inverse(ni, 0, j as int);
                lemma_at_inverse(ni, ni - 1, j as int);
                assert(prev[at(ni, ki, kj)] == bnd_partial(b, s0, ni, ni - 1, j as int, ki, kj));
                if ki == 0 && kj == j as int {
                    assert(x@[at(ni, ki, kj)] == w1 as int);
                } else if ki == ni - 1 && kj == j as int {
                    assert(x@[at(ni, ki, kj)] == w2 as int);
                } else {
                    assert(at(ni, ki, kj) != at(ni, 0, j as int));
                    assert(at(ni, ki, kj) != at(ni, ni - 1, j as int));
                    assert(x@[at(ni, ki, kj)] == prev[at(ni, ki, kj)]);
                }
            }
        }
        j = j + 1;
    }

    let ghost g2 = x@;
    proof {
        lemma_at_bounds(ni, 1, 1);
        lemma_at_bounds(ni, 1, ni - 2);
        lemma_at_bounds(ni, ni - 2, 1);
        lemma_at_bounds(ni, ni - 2, ni - 2);
        lemma_at_bounds(ni, 1, 0);
        lemma_at_bounds(ni, 0, 1);
        lemma_at_bounds(ni, 1, ni - 1);
        lemma_at_bounds(ni, 0, ni - 2);
        lemma_at_bounds(ni, ni - 2, 0);
        lemma_at_bounds(ni, ni - 1, 1);
        lemma_at_bounds(ni, ni - 2, ni - 1);
        lemma_at_bounds(ni, ni - 1, ni - 2);
        lemma_at_bounds(ni, 0, 0);
        lemma_at_bounds(ni, 0, ni - 1);
        lemma_at_bounds(ni, ni - 1, 0);
        lemma_at_bounds(ni, ni - 1, ni - 1);
        assert(g2[at(ni, 1, 0)] == bnd_cell(b, s0, ni, 1, 0));
        assert(g2[at(ni, 0, 1)] == bnd_cell(b, s0, ni, 0, 1));
        assert(g2[at(ni, 1, ni - 1)] == bnd_cell(b, s0, ni, 1, ni - 1));
        assert(g2[at(ni, 0, ni - 2)] == bnd_cell(b, s0, ni, 0, ni - 2));
        assert(g2[at(ni, ni - 2, 0)] == bnd_cell(b, s0, ni, ni - 2, 0));
        assert(g2[at(ni, ni - 1, 1)] == bnd_cell(b, s0, ni, ni - 1, 1));
        assert(g2[at(ni, ni - 2, ni - 1)] == bnd_cell(b, s0, ni, ni - 2, ni - 1));
        assert(g2[at(ni, ni - 1, ni - 2)] == bnd_cell(b, s0, ni, ni - 1, ni - 2));
    }
    let c1 = avg_pair(x, 1, 0, 0, 1);
    x.set(0, 0, c1);
    proof {
        lemma_at_inverse(ni, 0, 0);
        lemma_at_inverse(ni, 1, ni - 1);
        lemma_at_inverse(ni, 0, ni - 2);
        assert(at(ni, 1, ni - 1) != at(ni, 0, 0));
        assert(at(ni, 0, ni - 2) != at(ni, 0, 0));
        assert(x@[at(ni, 1, ni - 1)] == g2[at(ni, 1, ni - 1)]);
        assert(x@[at(ni, 0, ni - 2)] == g2[at(ni, 0, ni - 2)]);
    }
    let c2 = avg_pair(x, 1, n - 1, 0, n - 2);
    x.set(0, n - 1, c2);
    proof {
        lemma_at_inverse(ni, 0, ni - 1);
        lemma_at_inverse(ni, ni - 2, 0);
        lemma_at_inverse(ni, ni - 1, 1);
        assert(at(ni, ni - 2, 0) != at(ni, 0, 0) && at(ni, ni - 2, 0) != at(ni, 0, ni - 1));
        assert(at(ni, ni - 1, 1) != at(ni, 0, 0) && at(ni, ni - 1, 1) != at(ni, 0, ni - 1));
        assert(x@[at(ni, ni - 2, 0)] == g2[at(ni, ni - 2, 0)]);
        assert(x@[at(ni, ni - 1, 1)] == g2[at(ni, ni - 1, 1)]);
    }
    let c3 = avg_pair(x, n - 2, 0, n - 1, 1);
    x.set(n - 1, 0, c3);
    proof {
        lemma_at_inverse(ni, ni - 1, 0);
        lemma_at_inverse(ni, ni - 2, ni - 1);
        lemma_at_inverse(ni, ni - 1, ni - 2);
        assert(at(ni, ni - 2, ni - 1) != at(ni, 0, 0) && at(ni, ni - 2, ni - 1) != at(ni, 0, ni - 1)
            && at(ni, ni - 2, ni - 1) != at(ni, ni - 1, 0));
        assert(at(ni, ni - 1, ni - 2) != at(ni, 0, 0) && at(ni, ni - 1, ni - 2) != at(ni, 0, ni - 1)
            && at(ni, ni - 1, ni - 2) != at(ni, ni - 1, 0));
        assert(x@[at(ni, ni - 2, ni - 1)] == g2[at(ni, ni - 2, ni - 1)]);
        assert(x@[at(ni, ni - 1, ni - 2)] == g2[at(ni, ni - 1, ni - 2)]);
    }
    let c4 = avg_pair(x, n - 2, n - 1, n - 1, n - 2);
    x.set(n - 1, n - 1, c4);
    proof {
        lemma_at_inverse(ni, ni - 1, ni - 1);
        assert(c1 as int == bnd_cell(b, s0, ni, 0, 0));
        assert(c2 as int == bnd_cell(b, s0, ni, 0, ni - 1));
        assert(c3 as int == bnd_cell(b, s0, ni, ni - 1, 0));
        assert(c4 as int == bnd_cell(b, s0, ni, ni - 1, ni - 1));
        assert(x@ == g2.update(at(ni, 0, 0), c1 as int).update(at(ni, 0, ni - 1), c2 as int).update(
            at(ni, ni - 1, 0), c3 as int,
        ).update(at(ni, ni - 1, ni - 1), c4 as int));
    }

    proof {
        assert forall|k: int| 0 <= k < x@.len() implies x@[k] == set_bnd_spec(
            b,
            s0,
            ni,
        )[k] by {
            let ki = k % ni;
            let kj = k / ni;
            vstd::arithmetic::div_mod::lemma_fundamental_div_mod(k, ni);
            vstd::arithmetic::div_mod::lemma_mod_division_less_than_divisor(k, ni);
            vstd::arithmetic::div_mod::lemma_div_pos_is_pos(k, ni);
            assert(kj < ni) by (nonlinear_arith)
                requires
                    k == ni * kj + ki,
                    0 <= ki < ni,
                    0 <= kj,
                    k < ni * ni,
            ;
            assert(ni * kj == kj * ni) by (nonlinear_arith);
            assert(k == at(ni, ki, kj));
            lemma_at_inverse(ni, 1, 0);
            lemma_at_inverse(ni, 0, 1);
            lemma_at_inverse(ni, 1, ni - 1);
            lemma_at_inverse(ni, 0, ni - 2);
            lemma_at_inverse(ni, ni - 2, 0);
            lemma_at_inverse(ni, ni - 1, 1);
            lemma_at_inverse(ni, ni - 2, ni - 1);
            lemma_at_inverse(ni, ni - 1, ni - 2);
            lemma_at_inverse(ni, 0, 0);
            lemma_at_inverse(ni, 0, ni - 1);
            lemma_at_inverse(ni, ni - 1, 0);
            lemma_at_inverse(ni, ni - 1, ni - 1);
            lemma_at_bounds(ni, ki, kj);
        }
        assert(x@ =~= set_bnd_spec(b, s0, ni));
    }
}

/// Floor-mean of the two border cells adjacent to a corner.
fn avg_pair(x: &Array2DF, i1: usize, j1: usize, i2: usize, j2: usize) -> (r: i64)
    requires
        x.wf(),
        i1 < x.n,
        j1 < x.n,
        i2 < x.n,
        j2 < x.n,
    ensures
        r as int == (x@[at(x.n as int, i1 as int, j1 as int)] + x@[at(
            x.n as int,
            i2 as int,
            j2 as int,
        )]) / 2,
{
    let v1 = x.get(i1, j1);
    let v2 = x.get(i2, j2);
    crate::fixed::avg_floor(v1, v2)
}

} // verus!
