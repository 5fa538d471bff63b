//! Dense square buffer of fixed-point scalars.
//!
//! Cell (i, j) — column i, row j — lives at flat index `i + j*n`.  The whole
//! solver is only meaningful on square grids, so squareness is part of
//! well-formedness rather than an accident of use.

use vstd::prelude::*;
use vstd::arithmetic::mul::lemma_mul_inequality;

verus! {

/// Largest supported grid edge length.
pub const NMAX: usize = 4096;

/// Flat index of cell (i, j) in a grid of edge n.
pub open spec fn at(n: int, i: int, j: int) -> int {
    i + j * n
}

/// Every entry of `s` lies within `[-m, m]`.
pub open spec fn in_range(s: Seq<int>, m: int) -> bool {
    forall|k: int| 0 <= k < s.len() ==> -m <= #[trigger] s[k] <= m
}

/// A square grid of fixed-point scalars.
pub struct Array2DF {
    pub n: usize,
    pub data: Vec<i64>,
}

pub proof fn lemma_at_bounds(n: int, i: int, j: int)
    requires
        0 < n,
        0 <= i < n,
        0 <= j < n,
    ensures
        0 <= at(n, i, j) < n * n,
{
    assert(i + j * n < n * n) by (nonlinear_arith)
        requires
            0 <= i < n,
            0 <= j < n,
    ;
}

/// A workable edge length gives a buffer that any machine word can index.
pub proof fn lemma_grid_size(n: int)
    requires
        0 < n <= NMAX,
    ensures
        n * n <= 16777216,
{
    assert(n * n <= 16777216) by (nonlinear_arith)
        requires
            0 < n <= 4096,
    ;
}

/// A flat index of a full square buffer decomposes into column and row.
pub proof fn lemma_index_decomp(n: int, k: int)
    requires
        0 < n,
        0 <= k < n * n,
    ensures
        0 <= k % n < n,
        0 <= k / n < n,
        k == at(n, k % n, k / n),
{
    vstd::arithmetic::div_mod::lemma_fundamental_div_mod(k, n);
    vstd::arithmetic::div_mod::lemma_mod_division_less_than_divisor(k, n);
    vstd::arithmetic::div_mod::lemma_div_pos_is_pos(k, n);
    assert(k / n < n) by (nonlinear_arith)
        requires
            k == n * (k / n) + k % n,
            0 <= k % n < n,
            0 <= k / n,
            k < n * n,
    ;
    assert(n * (k / n) == (k / n) * n) by (nonlinear_arith);
}

impl View for Array2DF {
    type V = Seq<int>;

    open spec fn view(&self) -> Seq<int> {
        self.data@.map(|k: int, v: i64| v as int)
    }
}

impl Array2DF {
    /// The grid is square, of a workable edge length, with a full buffer.
    pub open spec fn wf(&self) -> bool {
        &&& 3 <= self.n <= NMAX
        &&& self.data@.len() == self.n * self.n
    }

    /// A fresh zero-filled square buffer; both requested dimensions must
    /// agree, since the flat addressing is only sound on a square grid.
    pub fn new(m: usize, n: usize) -> (r: Array2DF)
        requires
            m == n,
            3 <= n <= NMAX,
        ensures
            r.wf(),
            r.n == n,
            r@.len() == n * n,
            forall|k: int| 0 <= k < r@.len() ==> #[trigger] r@[k] == 0,
    {
        proof {
            lemma_mul_inequality(n as int, NMAX as int, n as int);
        }
        let total: usize = m * n;
        let mut data: Vec<i64> = Vec::new();
        let mut k: usize = 0;
        while k < total
            invariant
                k <= total,
                data@.len() == k,
                forall|q: int| 0 <= q < k ==> #[trigger] data@[q] == 0i64,
            decreases total - k,
        {
            data.push(0i64);
            k = k + 1;
        }
        Array2DF { n, data }
    }

    /// Read the value of cell (i, j).
    pub fn get(&self, i: usize, j: usize) -> (r: i64)
        requires
            self.wf(),
            i < self.n,
            j < self.n,
        ensures
            r == self@[at(self.n as int, i as int, j as int)],
    {
        proof {
            lemma_at_bounds(self.n as int, i as int, j as int);
            lemma_grid_size(self.n as int);
        }
        self.data[i + j * self.n]
    }

    /// Whether every cell's magnitude is at most `cap`.
    pub fn bounded(&self, cap: i64) -> (r: bool)
        requires
            self.wf(),
            0 <= cap,
        ensures
            r == in_range(self@, cap as int),
    {
        let mut k: usize = 0;
        let total: usize = self.data.len();
        while k < total
            invariant
                self.wf(),
                total == self.data@.len(),
                k <= total,
                0 <= cap,
                forall|q: int| 0 <= q < k ==> -(cap as int) <= #[trigger] self@[q] <= cap as int,
            decreases total - k,
        {
            let v = self.data[k];
            if v > cap || v < -cap {
                proof {
                    assert(!(-(cap as int) <= self@[k as int] <= cap as int));
                }
                return false;
            }
            k = k + 1;
        }
        true
    }

    /// Overwrite the value of cell (i, j).
    pub fn set(&mut self, i: usize, j: usize, v: i64)
        requires
            old(self).wf(),
            i < old(self).n,
            j < old(self).n,
        ensures
            final(self).wf(),
            final(self).n == old(self).n,
            final(self)@ == old(self)@.update(
                at(old(self).n as int, i as int, j as int),
                v as int,
            ),
    {
        proof {
            lemma_at_bounds(old(self).n as int, i as int, j as int);
            lemma_grid_size(old(self).n as int);
        }
        let idx: usize = i + j * self.n;
        self.data.set(idx, v);
        proof {
            assert(self@ =~= old(self)@.update(
                at(self.n as int, i as int, j as int),
                v as int,
            ));
        }
    }
}

} // verus!
