//! The dense matrix engine: a 2-D container of scalars (IEEE-754 bit
//! patterns, see [`crate::scalar`]) stored row-major in a flat buffer.
//!
//! Every operation's result is pinned entry by entry by a spec-level matrix
//! algebra over [`MatrixView`]. Large results are produced by fanning the
//! independent entries out across rayon worker threads; small ones are
//! produced by a verified sequential loop with the very same contract, so
//! the choice of path is invisible in every postcondition.

use vstd::prelude::*;

use crate::error::Error;
use crate::scalar;
use crate::scalar::{add_bits, mul_bits, sub_bits};
use crate::random;
use rayon::iter::{IntoParallelIterator, ParallelIterator};

verus! {

/// Above this many result entries an operation fans out across worker
/// threads; at or below it, a sequential loop runs. The two paths meet the
/// same entrywise contract, so the threshold is purely a performance choice.
pub const PAR_THRESHOLD: usize = 1000;

/// The mathematical content of a matrix: its dimensions and its entries,
/// row by row.
#[verifier::ext_equal]
pub struct MatrixView {
    pub rows: nat,
    pub cols: nat,
    pub grid: Seq<Seq<u64>>,
}

impl MatrixView {
    /// The grid really is rows x cols.
    pub open spec fn wf(self) -> bool {
        &&& self.grid.len() == self.rows
        &&& forall|i: int| 0 <= i < self.rows ==> (#[trigger] self.grid[i]).len() == self.cols
    }
}

/// A rows x cols matrix with every entry equal to `v`.
pub open spec fn const_view(rows: nat, cols: nat, v: u64) -> MatrixView {
    MatrixView { rows, cols, grid: Seq::new(rows, |i: int| Seq::new(cols, |j: int| v)) }
}

/// A single-column matrix holding the given values.
pub open spec fn column_view(s: Seq<u64>) -> MatrixView {
    MatrixView { rows: s.len(), cols: 1, grid: Seq::new(s.len(), |i: int| seq![s[i]]) }
}

/// The column of a single-column matrix, as a sequence.
pub open spec fn column_of(m: MatrixView) -> Seq<u64> {
    Seq::new(m.rows, |i: int| m.grid[i][0])
}

/// The elementwise IEEE-754 sum of two equal-shape matrices.
pub open spec fn add_view(a: MatrixView, b: MatrixView) -> MatrixView {
    MatrixView {
        rows: a.rows,
        cols: a.cols,
        grid: Seq::new(a.rows, |i: int| Seq::new(a.cols, |j: int| add_bits(a.grid[i][j], b.grid[i][j]))),
    }
}

/// The elementwise IEEE-754 difference of two equal-shape matrices.
pub open spec fn sub_view(a: MatrixView, b: MatrixView) -> MatrixView {
    MatrixView {
        rows: a.rows,
        cols: a.cols,
        grid: Seq::new(a.rows, |i: int| Seq::new(a.cols, |j: int| sub_bits(a.grid[i][j], b.grid[i][j]))),
    }
}

/// The Hadamard (elementwise) IEEE-754 product of two equal-shape matrices.
pub open spec fn hadamard_view(a: MatrixView, b: MatrixView) -> MatrixView {
    MatrixView {
        rows: a.rows,
        cols: a.cols,
        grid: Seq::new(a.rows, |i: int| Seq::new(a.cols, |j: int| mul_bits(a.grid[i][j], b.grid[i][j]))),
    }
}

/// Every entry scaled by `k` (entry on the left, as the engine computes it).
pub open spec fn scale_view(a: MatrixView, k: u64) -> MatrixView {
    MatrixView {
        rows: a.rows,
        cols: a.cols,
        grid: Seq::new(a.rows, |i: int| Seq::new(a.cols, |j: int| mul_bits(a.grid[i][j], k))),
    }
}

/// The transpose: entry (i, j) of the result is entry (j, i) of the operand.
pub open spec fn transpose_view(a: MatrixView) -> MatrixView {
    MatrixView {
        rows: a.cols,
        cols: a.rows,
        grid: Seq::new(a.cols, |i: int| Seq::new(a.rows, |j: int| a.grid[j][i])),
    }
}

/// The running inner-product sum for entry (i, j) of a matrix product,
/// after the first `k` terms, accumulated left to right from +0.0 exactly
/// as the engine's loop adds them.
pub open spec fn dot_cell(a: MatrixView, b: MatrixView, i: int, j: int, k: nat) -> u64
    decreases k,
{
    if k == 0 {
        scalar::F_ZERO
    } else {
        add_bits(
            dot_cell(a, b, i, j, (k - 1) as nat),
            mul_bits(a.grid[i][k - 1], b.grid[k - 1][j]),
        )
    }
}

/// The matrix product: entry (i, j) is the inner product of row i of `a`
/// with column j of `b`, summed left to right.
pub open spec fn dot_view(a: MatrixView, b: MatrixView) -> MatrixView {
    MatrixView {
        rows: a.rows,
        cols: b.cols,
        grid: Seq::new(
            a.rows,
            |i: int| Seq::new(b.cols, |j: int| dot_cell(a, b, i, j, a.cols)),
        ),
    }
}

/// A single-column well-formed matrix's column is exactly its flat buffer.
pub proof fn lemma_column_data(m: Matrix)
    requires
        m.wf(),
        m.cols == 1,
    ensures
        column_of(m@) == m.data@,
{
    assert(m.data@.len() == m.rows * 1);
    assert forall|i: int| 0 <= i < m.rows implies column_of(m@)[i] == m.data@[i] by {
        m.lemma_view_entry(i, 0);
        assert(i * 1 + 0 == i);
    }
    assert(column_of(m@) =~= m.data@);
}

/// Transposing twice gives back exactly the original matrix. The transpose
/// only moves entries, so no floating-point rounding enters the round trip.
pub proof fn lemma_transpose_involution(m: MatrixView)
    requires
        m.wf(),
    ensures
        transpose_view(transpose_view(m)) == m,
{
    let t = transpose_view(m);
    let tt = transpose_view(t);
    assert forall|i: int| 0 <= i < m.rows implies tt.grid[i] =~= m.grid[i] by {
        assert forall|j: int| 0 <= j < m.cols implies tt.grid[i][j] == m.grid[i][j] by {
            assert(tt.grid[i][j] == t.grid[j][i]);
            assert(t.grid[j][i] == m.grid[i][j]);
        }
    }
    assert(tt =~~= m);
}

/// Row-major position (i, j) of a rows x cols matrix lies inside the flat
/// buffer.
pub proof fn lemma_flat_bound(i: int, j: int, rows: int, cols: int)
    requires
        0 <= i < rows,
        0 <= j < cols,
    ensures
        0 <= i * cols + j < rows * cols,
{
    assert(0 <= i * cols + j < rows * cols) by (nonlinear_arith)
        requires
            0 <= i < rows,
            0 <= j < cols,
    ;
}

/// A flat row-major position decomposes uniquely into its row and column.
pub proof fn lemma_flat_decomp(i: int, j: int, cols: int)
    requires
        0 <= i,
        0 <= j < cols,
    ensures
        (i * cols + j) / cols == i,
        (i * cols + j) % cols == j,
{
    vstd::arithmetic::div_mod::lemma_fundamental_div_mod_converse(i * cols + j, cols, i, j);
}

/// Dividing a flat position by the column count lands on a valid row and
/// column.
pub proof fn lemma_flat_split(p: int, rows: int, cols: int)
    requires
        0 <= p < rows * cols,
        0 < cols,
    ensures
        0 <= p / cols < rows,
        0 <= p % cols < cols,
{
    vstd::arithmetic::div_mod::lemma_fundamental_div_mod(p, cols);
    vstd::arithmetic::div_mod::lemma_mod_bound(p, cols);
    let q = p / cols;
    let r = p % cols;
    assert(0 <= q < rows) by (nonlinear_arith)
        requires
            p == cols * q + r,
            0 <= r < cols,
            0 <= p < rows * cols,
    ;
}

/// Relies on rayon's `IntoParallelIterator` for ranges together with
/// `ParallelIterator::map` and `collect`: the closure runs once per index
/// in `0..n` and `collect` into a `Vec` keeps index order, exactly as the
/// sequential `map`/`collect` would.
#[verifier::external_body]
fn par_tabulate<F: Fn(usize) -> u64 + Send + Sync>(n: usize, f: F) -> (r: Vec<u64>)
    requires
        forall|p: usize| p < n ==> call_requires(f, (p,)),
    ensures
        r@.len() == n,
        forall|p: int| 0 <= p < n ==> call_ensures(f, (p as usize,), #[trigger] r@[p]),
{
    (0..n).into_par_iter().map(f).collect()
}

/// The sequential twin of [`par_tabulate`], with the identical contract,
/// verified rather than trusted.
fn seq_tabulate<F: Fn(usize) -> u64>(n: usize, f: F) -> (r: Vec<u64>)
    requires
        forall|p: usize| p < n ==> call_requires(f, (p,)),
    ensures
        r@.len() == n,
        forall|p: int| 0 <= p < n ==> call_ensures(f, (p as usize,), #[trigger] r@[p]),
{
    let mut out: Vec<u64> = Vec::new();
    let mut p: usize = 0;
    while p < n
        invariant
            p <= n,
            out@.len() == p,
            forall|p2: usize| p2 < n ==> call_requires(f, (p2,)),
            forall|q: int| 0 <= q < p ==> call_ensures(f, (q as usize,), #[trigger] out@[q]),
        decreases n - p,
    {
        let y = f(p);
        out.push(y);
        p = p + 1;
    }
    out
}

/// Computes the `n` entries of a result buffer from their index: across
/// worker threads for a large result, sequentially for a small one. The
/// contract does not depend on the path taken.
fn fill<F: Fn(usize) -> u64 + Send + Sync>(n: usize, f: F) -> (r: Vec<u64>)
    requires
        forall|p: usize| p < n ==> call_requires(f, (p,)),
    ensures
        r@.len() == n,
        forall|p: int| 0 <= p < n ==> call_ensures(f, (p as usize,), #[trigger] r@[p]),
{
    if n > PAR_THRESHOLD {
        par_tabulate(n, f)
    } else {
        seq_tabulate(n, f)
    }
}

/// Relies on rayon's `IntoParallelIterator` for ranges with
/// `ParallelIterator::map` and `collect` (order-keeping), applying the
/// given function to each buffer entry in turn.
#[verifier::external_body]
fn par_map_vec<F: Fn(u64) -> u64 + Send + Sync>(v: &Vec<u64>, f: F) -> (r: Vec<u64>)
    requires
        forall|p: int| 0 <= p < v@.len() ==> call_requires(f, (#[trigger] v@[p],)),
    ensures
        r@.len() == v@.len(),
        forall|p: int| 0 <= p < v@.len() ==> call_ensures(f, (v@[p],), #[trigger] r@[p]),
{
    (0..v.len()).into_par_iter().map(|p| f(v[p])).collect()
}

/// The sequential twin of [`par_map_vec`], with the identical contract,
/// verified rather than trusted.
fn seq_map_vec<F: Fn(u64) -> u64>(v: &Vec<u64>, f: F) -> (r: Vec<u64>)
    requires
        forall|p: int| 0 <= p < v@.len() ==> call_requires(f, (#[trigger] v@[p],)),
    ensures
        r@.len() == v@.len(),
        forall|p: int| 0 <= p < v@.len() ==> call_ensures(f, (v@[p],), #[trigger] r@[p]),
{
    let n = v.len();
    let mut out: Vec<u64> = Vec::new();
    let mut p: usize = 0;
    while p < n
        invariant
            p <= n,
            n == v@.len(),
            out@.len() == p,
            forall|q: int| 0 <= q < v@.len() ==> call_requires(f, (#[trigger] v@[q],)),
            forall|q: int| 0 <= q < p ==> call_ensures(f, (v@[q],), #[trigger] out@[q]),
        decreases n - p,
    {
        let y = f(v[p]);
        out.push(y);
        p = p + 1;
    }
    out
}

/// Applies a function to every buffer entry: across worker threads for a
/// large buffer, sequentially for a small one, under one contract.
fn map_vec<F: Fn(u64) -> u64 + Send + Sync>(v: &Vec<u64>, f: F) -> (r: Vec<u64>)
    requires
        forall|p: int| 0 <= p < v@.len() ==> call_requires(f, (#[trigger] v@[p],)),
    ensures
        r@.len() == v@.len(),
        forall|p: int| 0 <= p < v@.len() ==> call_ensures(f, (v@[p],), #[trigger] r@[p]),
{
    if v.len() > PAR_THRESHOLD {
        par_map_vec(v, f)
    } else {
        seq_map_vec(v, f)
    }
}

/// A 2-D dense matrix of scalars in row-major order. The buffer length
/// always equals `rows * cols`; operations return new matrices rather than
/// mutating their operands, except the documented in-place helpers.
#[derive(Debug)]
pub struct Matrix {
    pub rows: usize,
    pub cols: usize,
    pub data: Vec<u64>,
}

impl View for Matrix {
    type V = MatrixView;

    open spec fn view(&self) -> MatrixView {
        MatrixView {
            rows: self.rows as nat,
            cols: self.cols as nat,
            grid: Seq::new(
                self.rows as nat,
                |i: int| Seq::new(self.cols as nat, |j: int| self.data@[i * self.cols + j]),
            ),
        }
    }
}

impl Matrix {
    /// The buffer holds exactly rows x cols scalars.
    pub open spec fn wf(&self) -> bool {
        self.data@.len() == self.rows * self.cols
    }

    /// A well-formed matrix's view is a well-formed grid.
    pub proof fn lemma_view_wf(self)
        requires
            self.wf(),
        ensures
            self@.wf(),
            self@.rows == self.rows,
            self@.cols == self.cols,
    {
    }

    /// The view's entry (i, j) is the flat buffer's entry at `i * cols + j`.
    pub proof fn lemma_view_entry(self, i: int, j: int)
        requires
            self.wf(),
            0 <= i < self.rows,
            0 <= j < self.cols,
        ensures
            0 <= i * self.cols + j < self.data@.len(),
            self@.grid[i][j] == self.data@[i * self.cols + j],
    {
        lemma_flat_bound(i, j, self.rows as int, self.cols as int);
    }

    /// A zero-filled rows x cols matrix.
    pub fn new(rows: usize, cols: usize) -> (m: Matrix)
        requires
            rows * cols <= usize::MAX,
        ensures
            m.wf(),
            m.rows == rows,
            m.cols == cols,
            m@ == const_view(rows as nat, cols as nat, scalar::F_ZERO),
    {
        proof {
            assert(rows * cols >= 0) by (nonlinear_arith);
        }
        let n = rows * cols;
        let f = |p: usize| -> (y: u64)
            ensures
                y == scalar::F_ZERO,
            { scalar::F_ZERO };
        let data = fill(n, f);
        let m = Matrix { rows, cols, data };
        proof {
            assert forall|i: int| 0 <= i < rows implies m@.grid[i] =~= const_view(
                rows as nat,
                cols as nat,
                scalar::F_ZERO,
            ).grid[i] by {
                assert forall|j: int| 0 <= j < cols implies m@.grid[i][j] == scalar::F_ZERO by {
                    lemma_flat_bound(i, j, rows as int, cols as int);
                }
            }
            assert(m@ =~~= const_view(rows as nat, cols as nat, scalar::F_ZERO));
        }
        m
    }

    /// A single-column matrix holding the given values in order.
    pub fn from_array(array: &[u64]) -> (m: Matrix)
        ensures
            m.wf(),
            m.rows == array@.len(),
            m.cols == 1,
            m@ == column_view(array@),
    {
        let rows = array.len();
        let f = |p: usize| -> (y: u64)
            requires
                p < array@.len(),
            ensures
                y == array@[p as int],
            { array[p] };
        let data = fill(rows, f);
        let m = Matrix { rows, cols: 1, data };
        proof {
            assert forall|i: int| 0 <= i < rows implies m@.grid[i] =~= column_view(
                array@,
            ).grid[i] by {
                assert(m@.grid[i][0] == m.data@[i * 1 + 0]);
                assert(i * 1 + 0 == i);
            }
            assert(m@ =~~= column_view(array@));
        }
        m
    }

    /// The row-major buffer, flattened back out as a vector.
    pub fn to_array(&self) -> (r: Vec<u64>)
        ensures
            r@ == self.data@,
    {
        let sd = &self.data;
        let n = sd.len();
        let f = |p: usize| -> (y: u64)
            requires
                p < sd@.len(),
            ensures
                y == sd@[p as int],
            { sd[p] };
        let r = fill(n, f);
        proof {
            assert(r@ =~= self.data@);
        }
        r
    }

    /// The entry in row `row`, column `col`.
    pub fn get(&self, row: usize, col: usize) -> (r: u64)
        requires
            self.wf(),
            row < self.rows,
            col < self.cols,
        ensures
            r == self@.grid[row as int][col as int],
    {
        // the call brings the buffer length's machine bound into scope,
        // which the flat-index arithmetic below needs
        let n = self.data.len();
        proof {
            self.lemma_view_entry(row as int, col as int);
            assert(row * self.cols + col < n);
        }
        self.data[row * self.cols + col]
    }

    /// Overwrites the entry in row `row`, column `col`.
    pub fn set(&mut self, row: usize, col: usize, value: u64)
        requires
            old(self).wf(),
            row < old(self).rows,
            col < old(self).cols,
        ensures
            final(self).wf(),
            final(self).rows == old(self).rows,
            final(self).cols == old(self).cols,
            final(self)@ == (MatrixView {
                grid: old(self)@.grid.update(
                    row as int,
                    old(self)@.grid[row as int].update(col as int, value),
                ),
                ..old(self)@
            }),
    {
        // the call brings the buffer length's machine bound into scope,
        // which the flat-index arithmetic below needs
        let n = self.data.len();
        proof {
            self.lemma_view_entry(row as int, col as int);
            assert(row * self.cols + col < n);
        }
        let idx = row * self.cols + col;
        self.data.set(idx, value);
        proof {
            let target = MatrixView {
                grid: old(self)@.grid.update(
                    row as int,
                    old(self)@.grid[row as int].update(col as int, value),
                ),
                ..old(self)@
            };
            assert forall|i: int| 0 <= i < self.rows implies self@.grid[i] =~= target.grid[i] by {
                assert forall|j: int| 0 <= j < self.cols implies self@.grid[i][j]
                    == target.grid[i][j] by {
                    lemma_flat_bound(i, j, self.rows as int, self.cols as int);
                    if i == row && j == col {
                    } else {
                        assert(i * self.cols + j != row * self.cols + col) by {
                            if i == row {
                            } else {
                                lemma_flat_decomp(i, j, self.cols as int);
                                lemma_flat_decomp(row as int, col as int, self.cols as int);
                            }
                        }
                    }
                }
            }
            assert(self@ =~~= target);
        }
    }

    /// The standard matrix product. Fails with `DimensionMismatch` exactly
    /// when the inner dimensions disagree. Whether the rows are computed
    /// across worker threads or sequentially, the result meets the same
    /// entrywise postcondition, so the two paths agree exactly.
    pub fn dot(a: &Matrix, b: &Matrix) -> (r: Result<Matrix, Error>)
        requires
            a.wf(),
            b.wf(),
            a.rows * b.cols <= usize::MAX,
        ensures
            match r {
                Ok(m) => {
                    &&& a.cols == b.rows
                    &&& m.wf()
                    &&& m.rows == a.rows
                    &&& m.cols == b.cols
                    &&& m@ == dot_view(a@, b@)
                },
                Err(e) => e == Error::DimensionMismatch && a.cols != b.rows,
            },
    {
        if a.cols != b.rows {
            return Err(Error::DimensionMismatch);
        }
        proof {
            assert(a.rows * b.cols >= 0) by (nonlinear_arith);
        }
        let n = a.rows * b.cols;
        let f = |p: usize| -> (y: u64)
            requires
                a.wf(),
                b.wf(),
                a.cols == b.rows,
                p < a.rows * b.cols,
            ensures
                y == dot_cell(
                    a@,
                    b@,
                    (p as int) / (b.cols as int),
                    (p as int) % (b.cols as int),
                    a.cols as nat,
                ),
            {
                proof {
                    assert(b.cols > 0) by (nonlinear_arith)
                        requires
                            (p as int) < (a.rows as int) * (b.cols as int),
                            p >= 0,
                    ;
                    lemma_flat_split(p as int, a.rows as int, b.cols as int);
                }
                let i = p / b.cols;
                let j = p % b.cols;
                Matrix::dot_entry(a, b, i, j)
            };
        let data = fill(n, f);
        let m = Matrix { rows: a.rows, cols: b.cols, data };
        proof {
            assert forall|i: int| 0 <= i < m.rows implies m@.grid[i] =~= dot_view(
                a@,
                b@,
            ).grid[i] by {
                assert forall|j: int| 0 <= j < m.cols implies m@.grid[i][j] == dot_cell(
                    a@,
                    b@,
                    i,
                    j,
                    a.cols as nat,
                ) by {
                    lemma_flat_bound(i, j, m.rows as int, m.cols as int);
                    lemma_flat_decomp(i, j, m.cols as int);
                    assert(m@.grid[i][j] == m.data@[i * m.cols + j]);
                }
            }
            assert(m@ =~~= dot_view(a@, b@));
        }
        Ok(m)
    }

    /// One inner product: row `i` of `a` against column `j` of `b`, summed
    /// left to right starting from +0.0.
    fn dot_entry(a: &Matrix, b: &Matrix, i: usize, j: usize) -> (y: u64)
        requires
            a.wf(),
            b.wf(),
            a.cols == b.rows,
            i < a.rows,
            j < b.cols,
        ensures
            y == dot_cell(a@, b@, i as int, j as int, a.cols as nat),
    {
        let mut sum: u64 = scalar::F_ZERO;
        let mut k: usize = 0;
        while k < a.cols
            invariant
                a.wf(),
                b.wf(),
                a.cols == b.rows,
                i < a.rows,
                j < b.cols,
                k <= a.cols,
                sum == dot_cell(a@, b@, i as int, j as int, k as nat),
            decreases a.cols - k,
        {
            let av = a.get(i, k);
            let bv = b.get(k, j);
            sum = scalar::fadd(sum, scalar::fmul(av, bv));
            k = k + 1;
        }
        sum
    }

    /// Elementwise sum. Fails with `SizeMismatch`, touching neither
    /// operand, exactly when the shapes differ.
    pub fn add(&self, other: &Matrix) -> (r: Result<Matrix, Error>)
        requires
            self.wf(),
            other.wf(),
        ensures
            match r {
                Ok(m) => {
                    &&& self.rows == other.rows && self.cols == other.cols
                    &&& m.wf() && m.rows == self.rows && m.cols == self.cols
                    &&& m@ == add_view(self@, other@)
                },
                Err(e) => {
                    &&& e == Error::SizeMismatch
                    &&& !(self.rows == other.rows && self.cols == other.cols)
                },
            },
    {
        if self.rows != other.rows || self.cols != other.cols {
            return Err(Error::SizeMismatch);
        }
        let sd = &self.data;
        let od = &other.data;
        let n = sd.len();
        let f = |p: usize| -> (y: u64)
            requires
                p < sd@.len(),
                od@.len() == sd@.len(),
            ensures
                y == add_bits(sd@[p as int], od@[p as int]),
            { scalar::fadd(sd[p], od[p]) };
        let data = fill(n, f);
        let m = Matrix { rows: self.rows, cols: self.cols, data };
        proof {
            assert forall|i: int| 0 <= i < m.rows implies m@.grid[i] =~= add_view(
                self@,
                other@,
            ).grid[i] by {
                assert forall|j: int| 0 <= j < m.cols implies m@.grid[i][j] == add_bits(
                    self@.grid[i][j],
                    other@.grid[i][j],
                ) by {
                    lemma_flat_bound(i, j, m.rows as int, m.cols as int);
                    self.lemma_view_entry(i, j);
                    other.lemma_view_entry(i, j);
                }
            }
            assert(m@ =~~= add_view(self@, other@));
        }
        Ok(m)
    }

    /// Elementwise difference. Fails with `SizeMismatch`, touching neither
    /// operand, exactly when the shapes differ.
    pub fn subtract(&self, other: &Matrix) -> (r: Result<Matrix, Error>)
        requires
            self.wf(),
            other.wf(),
        ensures
            match r {
                Ok(m) => {
                    &&& self.rows == other.rows && self.cols == other.cols
                    &&& m.wf() && m.rows == self.rows && m.cols == self.cols
                    &&& m@ == sub_view(self@, other@)
                },
                Err(e) => {
                    &&& e == Error::SizeMismatch
                    &&& !(self.rows == other.rows && self.cols == other.cols)
                },
            },
    {
        if self.rows != other.rows || self.cols != other.cols {
            return Err(Error::SizeMismatch);
        }
        let sd = &self.data;
        let od = &other.data;
        let n = sd.len();
        let f = |p: usize| -> (y: u64)
            requires
                p < sd@.len(),
                od@.len() == sd@.len(),
            ensures
                y == sub_bits(sd@[p as int], od@[p as int]),
            { scalar::fsub(sd[p], od[p]) };
        let data = fill(n, f);
        let m = Matrix { rows: self.rows, cols: self.cols, data };
        proof {
            assert forall|i: int| 0 <= i < m.rows implies m@.grid[i] =~= sub_view(
                self@,
                other@,
            ).grid[i] by {
                assert forall|j: int| 0 <= j < m.cols implies m@.grid[i][j] == sub_bits(
                    self@.grid[i][j],
                    other@.grid[i][j],
                ) by {
                    lemma_flat_bound(i, j, m.rows as int, m.cols as int);
                    self.lemma_view_entry(i, j);
                    other.lemma_view_entry(i, j);
                }
            }
            assert(m@ =~~= sub_view(self@, other@));
        }
        Ok(m)
    }

    /// Hadamard (elementwise) product. Fails with `SizeMismatch`, touching
    /// neither operand, exactly when the shapes differ.
    pub fn hadamard(a: &Matrix, b: &Matrix) -> (r: Result<Matrix, Error>)
        requires
            a.wf(),
            b.wf(),
        ensures
            match r {
                Ok(m) => {
                    &&& a.rows == b.rows && a.cols == b.cols
                    &&& m.wf() && m.rows == a.rows && m.cols == a.cols
                    &&& m@ == hadamard_view(a@, b@)
                },
                Err(e) => {
                    &&& e == Error::SizeMismatch
                    &&& !(a.rows == b.rows && a.cols == b.cols)
                },
            },
    {
        if a.rows != b.rows || a.cols != b.cols {
            return Err(Error::SizeMismatch);
        }
        let sd = &a.data;
        let od = &b.data;
        let n = sd.len();
        let f = |p: usize| -> (y: u64)
            requires
                p < sd@.len(),
                od@.len() == sd@.len(),
            ensures
                y == mul_bits(sd@[p as int], od@[p as int]),
            { scalar::fmul(sd[p], od[p]) };
        let data = fill(n, f);
        let m = Matrix { rows: a.rows, cols: a.cols, data };
        proof {
            assert forall|i: int| 0 <= i < m.rows implies m@.grid[i] =~= hadamard_view(
                a@,
                b@,
            ).grid[i] by {
                assert forall|j: int| 0 <= j < m.cols implies m@.grid[i][j] == mul_bits(
                    a@.grid[i][j],
                    b@.grid[i][j],
                ) by {
                    lemma_flat_bound(i, j, m.rows as int, m.cols as int);
                    a.lemma_view_entry(i, j);
                    b.lemma_view_entry(i, j);
                }
            }
            assert(m@ =~~= hadamard_view(a@, b@));
        }
        Ok(m)
    }

    /// Every entry scaled by the given scalar; always succeeds.
    pub fn multiply(&self, scalar: u64) -> (m: Matrix)
        requires
            self.wf(),
        ensures
            m.wf(),
            m.rows == self.rows,
            m.cols == self.cols,
            m@ == scale_view(self@, scalar),
    {
        let sd = &self.data;
        let n = sd.len();
        let f = |p: usize| -> (y: u64)
            requires
                p < sd@.len(),
            ensures
                y == mul_bits(sd@[p as int], scalar),
            { crate::scalar::fmul(sd[p], scalar) };
        let data = fill(n, f);
        let m = Matrix { rows: self.rows, cols: self.cols, data };
        proof {
            assert forall|i: int| 0 <= i < m.rows implies m@.grid[i] =~= scale_view(
                self@,
                scalar,
            ).grid[i] by {
                assert forall|j: int| 0 <= j < m.cols implies m@.grid[i][j] == mul_bits(
                    self@.grid[i][j],
                    scalar,
                ) by {
                    lemma_flat_bound(i, j, m.rows as int, m.cols as int);
                    self.lemma_view_entry(i, j);
                }
            }
            assert(m@ =~~= scale_view(self@, scalar));
        }
        m
    }

    /// The transpose: a cols x rows matrix with entry (j, i) taken from
    /// entry (i, j) of the operand. No arithmetic is performed.
    pub fn transpose(m: &Matrix) -> (r: Matrix)
        requires
            m.wf(),
        ensures
            r.wf(),
            r.rows == m.cols,
            r.cols == m.rows,
            r@ == transpose_view(m@),
    {
        proof {
            assert(m.cols * m.rows == m.rows * m.cols) by (nonlinear_arith);
        }
        let n = m.data.len();
        let f = |p: usize| -> (y: u64)
            requires
                m.wf(),
                p < m.cols * m.rows,
            ensures
                y == m@.grid[(p as int) % (m.rows as int)][(p as int) / (m.rows as int)],
            {
                proof {
                    assert(m.rows > 0) by (nonlinear_arith)
                        requires
                            (p as int) < (m.cols as int) * (m.rows as int),
                            p >= 0,
                    ;
                    lemma_flat_split(p as int, m.cols as int, m.rows as int);
                }
                let i = p / m.rows;
                let j = p % m.rows;
                m.get(j, i)
            };
        let data = fill(n, f);
        let r = Matrix { rows: m.cols, cols: m.rows, data };
        proof {
            assert forall|i: int| 0 <= i < r.rows implies r@.grid[i] =~= transpose_view(
                m@,
            ).grid[i] by {
                assert forall|j: int| 0 <= j < r.cols implies r@.grid[i][j] == m@.grid[j][i] by {
                    lemma_flat_bound(i, j, r.rows as int, r.cols as int);
                    lemma_flat_decomp(i, j, r.cols as int);
                    assert(r@.grid[i][j] == r.data@[i * r.cols + j]);
                }
            }
            assert(r@ =~~= transpose_view(m@));
        }
        r
    }

    /// A new matrix with the pure function applied to every entry.
    pub fn map<F: Fn(u64) -> u64 + Send + Sync>(&self, f: F) -> (r: Matrix)
        requires
            self.wf(),
            forall|p: int|
                0 <= p < self.data@.len() ==> call_requires(f, (#[trigger] self.data@[p],)),
        ensures
            r.wf(),
            r.rows == self.rows,
            r.cols == self.cols,
            forall|p: int|
                0 <= p < r.data@.len() ==> call_ensures(
                    f,
                    (self.data@[p],),
                    #[trigger] r.data@[p],
                ),
            forall|i: int, j: int|
                0 <= i < self.rows && 0 <= j < self.cols ==> call_ensures(
                    f,
                    (self@.grid[i][j],),
                    #[trigger] r@.grid[i][j],
                ),
    {
        let data = map_vec(&self.data, f);
        let r = Matrix { rows: self.rows, cols: self.cols, data };
        proof {
            assert forall|i: int, j: int|
                0 <= i < self.rows && 0 <= j < self.cols implies call_ensures(
                f,
                (self@.grid[i][j],),
                #[trigger] r@.grid[i][j],
            ) by {
                lemma_flat_bound(i, j, self.rows as int, self.cols as int);
                self.lemma_view_entry(i, j);
                assert(r@.grid[i][j] == r.data@[i * self.cols + j]);
            }
        }
        r
    }

    /// Applies the pure function to every entry in place.
    pub fn apply_in_place<F: Fn(u64) -> u64 + Send + Sync>(&mut self, f: F)
        requires
            old(self).wf(),
            forall|p: int|
                0 <= p < old(self).data@.len() ==> call_requires(
                    f,
                    (#[trigger] old(self).data@[p],),
                ),
        ensures
            final(self).wf(),
            final(self).rows == old(self).rows,
            final(self).cols == old(self).cols,
            forall|p: int|
                0 <= p < final(self).data@.len() ==> call_ensures(
                    f,
                    (old(self).data@[p],),
                    #[trigger] final(self).data@[p],
                ),
    {
        let data = map_vec(&self.data, f);
        self.data = data;
    }

    /// Fills every entry independently with a uniformly random scalar in
    /// [-1, 1). The shape and that range are promised; which values were
    /// drawn is not, so every caller holds for any outcome.
    pub fn randomize(&mut self)
        requires
            old(self).wf(),
        ensures
            final(self).wf(),
            final(self).rows == old(self).rows,
            final(self).cols == old(self).cols,
            forall|p: int|
                0 <= p < final(self).data@.len() ==> scalar::in_unit_range(
                    #[trigger] final(self).data@[p],
                ),
    {
        let n = self.data.len();
        let f = |p: usize| -> (y: u64)
            ensures
                scalar::in_unit_range(y),
            { random::random_unit_scalar() };
        let data = fill(n, f);
        self.data = data;
    }
}

/// Cloning preserves the shape and every entry.
impl Clone for Matrix {
    fn clone(&self) -> (r: Self)
        ensures
            r.rows == self.rows,
            r.cols == self.cols,
            r.data@ == self.data@,
            r@ == self@,
    {
        let r = Matrix { rows: self.rows, cols: self.cols, data: self.to_array() };
        proof {
            assert(r@ =~~= self@);
        }
        r
    }
}

} // verus!
