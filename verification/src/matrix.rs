//! Dense row-major matrices.
use crate::scalar::{
    half, s_grid_max, s_grid_sum, s_half, s_line_max, s_line_sum, s_sum, Scalar,
};
use vstd::prelude::*;

verus! {

/// A `rows x cols` matrix, stored row after row.
#[derive(Debug)]
pub struct Matrix<S> {
    rows: usize,
    cols: usize,
    data: Vec<S>,
}

/// Position `(i, j)` of a row-major layout lies inside it.
pub proof fn lemma_flat_index(rows: int, cols: int, i: int, j: int)
    requires
        0 <= i < rows,
        0 <= j < cols,
    ensures
        0 <= i * cols <= i * cols + j < rows * cols,
{
    assert(0 <= i * cols <= i * cols + j < rows * cols) by (nonlinear_arith)
        requires
            0 <= i < rows,
            0 <= j < cols,
    ;
}

/// Distinct positions of a row-major layout are stored apart.
pub proof fn lemma_flat_distinct(cols: int, i: int, j: int, k: int, l: int)
    requires
        0 <= i,
        0 <= k,
        0 <= j < cols,
        0 <= l < cols,
        i * cols + j == k * cols + l,
    ensures
        i == k,
        j == l,
{
    assert(i == k && j == l) by (nonlinear_arith)
        requires
            0 <= i,
            0 <= k,
            0 <= j < cols,
            0 <= l < cols,
            i * cols + j == k * cols + l,
    ;
}

impl<S> Matrix<S> {
    pub closed spec fn nrows(&self) -> nat {
        self.rows as nat
    }

    pub closed spec fn ncols(&self) -> nat {
        self.cols as nat
    }

    /// The entry in row `i` and column `j`.
    pub closed spec fn at(&self, i: int, j: int) -> S {
        self.data@[i * self.cols + j]
    }

    /// The stored entries are exactly those of the declared shape.
    pub closed spec fn wf(&self) -> bool {
        self.data@.len() == self.rows * self.cols
    }

    /// The matrix has the shape `rows x cols`.
    pub open spec fn has_shape(&self, rows: nat, cols: nat) -> bool {
        self.wf() && self.nrows() == rows && self.ncols() == cols
    }

    /// Row `i` as a sequence.
    pub open spec fn row(&self, i: int) -> Seq<S> {
        Seq::new(self.ncols(), |j: int| self.at(i, j))
    }

    /// Same shape and same entries.
    pub open spec fn same_as(&self, other: &Matrix<S>) -> bool {
        &&& self.nrows() == other.nrows()
        &&& self.ncols() == other.ncols()
        &&& forall|i: int, j: int|
            0 <= i < self.nrows() && 0 <= j < self.ncols() ==> #[trigger] self.at(i, j)
                == other.at(i, j)
    }

    /// The number of entries can be counted.
    pub proof fn lemma_size(&self)
        requires
            self.wf(),
        ensures
            self.nrows() * self.ncols() <= usize::MAX,
    {
        assert(self.data.len() == self.rows * self.cols);
    }

    pub fn row_count(&self) -> (r: usize)
        ensures
            r == self.nrows(),
    {
        self.rows
    }

    pub fn col_count(&self) -> (r: usize)
        ensures
            r == self.ncols(),
    {
        self.cols
    }
}

impl<S: Copy> Matrix<S> {
    /// The matrix whose entries are all `value`.
    pub fn constant(rows: usize, cols: usize, value: S) -> (m: Matrix<S>)
        requires
            rows * cols <= usize::MAX,
        ensures
            m.has_shape(rows as nat, cols as nat),
            forall|i: int, j: int|
                0 <= i < rows && 0 <= j < cols ==> #[trigger] m.at(i, j) == value,
    {
        let total: usize = rows * cols;
        let mut data: Vec<S> = Vec::new();
        for i in 0..total
            invariant
                data@.len() == i,
                forall|k: int| 0 <= k < i ==> #[trigger] data@[k] == value,
        {
            data.push(value);
        }
        let m = Matrix { rows, cols, data };
        proof {
            assert forall|i: int, j: int| 0 <= i < rows && 0 <= j < cols implies #[trigger] m.at(
                i,
                j,
            ) == value by {
                lemma_flat_index(rows as int, cols as int, i, j);
            }
        }
        m
    }

    /// The matrix whose entries are all `value`; `None` when their number
    /// exceeds what can be counted.
    pub fn filled(rows: usize, cols: usize, value: S) -> (r: Option<Matrix<S>>)
        ensures
            r is Some <==> rows * cols <= usize::MAX,
            r matches Some(m) ==> {
                &&& m.has_shape(rows as nat, cols as nat)
                &&& forall|i: int, j: int|
                    0 <= i < rows && 0 <= j < cols ==> #[trigger] m.at(i, j) == value
            },
    {
        match rows.checked_mul(cols) {
            None => None,
            Some(_) => Some(Matrix::constant(rows, cols, value)),
        }
    }

    /// The matrix with the given rows; `None` when they differ in length from
    /// `cols` or their entries exceed what can be counted.
    pub fn from_rows(cols: usize, source: &Vec<Vec<S>>) -> (r: Option<Matrix<S>>)
        ensures
            r is Some <==> {
                &&& source@.len() * cols <= usize::MAX
                &&& forall|i: int| 0 <= i < source@.len() ==> (#[trigger] source@[i])@.len() == cols
            },
            r matches Some(m) ==> {
                &&& m.has_shape(source@.len(), cols as nat)
                &&& forall|i: int, j: int|
                    0 <= i < source@.len() && 0 <= j < cols ==> #[trigger] m.at(i, j)
                        == source@[i]@[j]
            },
    {
        let rows: usize = source.len();
        if rows.checked_mul(cols).is_none() {
            return None;
        }
        let mut data: Vec<S> = Vec::new();
        assert(0 * cols == 0) by (nonlinear_arith);
        for i in 0..rows
            invariant
                rows == source@.len(),
                rows * cols <= usize::MAX,
                data@.len() == i * cols,
                forall|k: int| 0 <= k < i ==> (#[trigger] source@[k])@.len() == cols,
                forall|k: int, j: int|
                    0 <= k < i && 0 <= j < cols ==> data@[k * cols + j] == #[trigger] source@[k]@[j],
        {
            let line: &Vec<S> = &source[i];
            if line.len() != cols {
                return None;
            }
            for j in 0..cols
                invariant
                    rows == source@.len(),
                    i < rows,
                    line@ == source@[i as int]@,
                    line@.len() == cols,
                    data@.len() == i * cols + j,
                    forall|k: int, l: int|
                        0 <= k < i && 0 <= l < cols ==> data@[k * cols + l]
                            == #[trigger] source@[k]@[l],
                    forall|l: int| 0 <= l < j ==> data@[i * cols + l] == #[trigger] line@[l],
            {
                let ghost before = data@;
                data.push(line[j]);
                proof {
                    assert forall|k: int, l: int| 0 <= k < i && 0 <= l < cols implies data@[k
                        * cols + l] == #[trigger] source@[k]@[l] by {
                        lemma_flat_index(i as int, cols as int, k, l);
                        assert(before[k * cols + l] == source@[k]@[l]);
                    }
                }
            }
            proof {
                assert((i + 1) * cols == i * cols + cols) by (nonlinear_arith);
                assert forall|k: int, l: int| 0 <= k < i + 1 && 0 <= l < cols implies data@[k * cols
                    + l] == #[trigger] source@[k]@[l] by {
                    if k == i {
                        assert(line@[l] == source@[k]@[l]);
                    }
                }
            }
        }
        Some(Matrix { rows, cols, data })
    }

    pub fn get(&self, i: usize, j: usize) -> (r: S)
        requires
            self.wf(),
            i < self.nrows(),
            j < self.ncols(),
        ensures
            r == self.at(i as int, j as int),
    {
        proof {
            lemma_flat_index(self.rows as int, self.cols as int, i as int, j as int);
            assert(self.data.len() == self.rows * self.cols);
        }
        self.data[i * self.cols + j]
    }

    pub fn set(&mut self, i: usize, j: usize, value: S)
        requires
            old(self).wf(),
            i < old(self).nrows(),
            j < old(self).ncols(),
        ensures
            final(self).has_shape(old(self).nrows(), old(self).ncols()),
            forall|k: int, l: int|
                0 <= k < old(self).nrows() && 0 <= l < old(self).ncols() ==>
                    #[trigger] final(self).at(k, l) == (if k == i && l == j {
                    value
                } else {
                    old(self).at(k, l)
                }),
    {
        let ghost cols = self.cols as int;
        let ghost rows = self.rows as int;
        proof {
            lemma_flat_index(rows, cols, i as int, j as int);
            assert(self.data.len() == rows * cols);
        }
        let position: usize = i * self.cols + j;
        self.data.set(position, value);
        proof {
            assert forall|k: int, l: int| 0 <= k < rows && 0 <= l < cols implies #[trigger] self.at(
                k,
                l,
            ) == (if k == i && l == j {
                value
            } else {
                old(self).at(k, l)
            }) by {
                lemma_flat_index(rows, cols, k, l);
                if k * cols + l == i * cols + j {
                    lemma_flat_distinct(cols, k, l, i as int, j as int);
                }
            }
        }
    }

    /// A copy of the matrix.
    pub fn copy(&self) -> (r: Matrix<S>)
        requires
            self.wf(),
        ensures
            r.has_shape(self.nrows(), self.ncols()),
            r.same_as(self),
    {
        let mut data: Vec<S> = Vec::new();
        for i in 0..self.data.len()
            invariant
                data@ == self.data@.take(i as int),
        {
            data.push(self.data[i]);
            assert(data@ =~= self.data@.take(i + 1));
        }
        assert(data@ =~= self.data@);
        Matrix { rows: self.rows, cols: self.cols, data }
    }
}

/// The sum of squares of the entries, row by row from zero.
pub open spec fn s_matrix_energy<S: Scalar>(m: &Matrix<S>) -> S {
    s_grid_sum(
        S::s_zero(),
        m.nrows() as int,
        m.ncols() as int,
        |i: int, j: int| m.at(i, j).s_times(m.at(i, j)),
    )
}

pub fn matrix_energy<S: Scalar>(m: &Matrix<S>) -> (r: S)
    requires
        m.wf(),
    ensures
        r == s_matrix_energy(m),
{
    let ghost f = |i: int, j: int| m.at(i, j).s_times(m.at(i, j));
    let rows: usize = m.row_count();
    let cols: usize = m.col_count();
    let mut acc: S = S::zero();
    for i in 0..rows
        invariant
            m.has_shape(rows as nat, cols as nat),
            f == (|i: int, j: int| m.at(i, j).s_times(m.at(i, j))),
            acc == s_grid_sum(S::s_zero(), i as int, cols as int, f),
    {
        for j in 0..cols
            invariant
                m.has_shape(rows as nat, cols as nat),
                i < rows,
                f == (|i: int, j: int| m.at(i, j).s_times(m.at(i, j))),
                acc == s_line_sum(
                    s_grid_sum(S::s_zero(), i as int, cols as int, f),
                    i as int,
                    j as int,
                    f,
                ),
        {
            let value: S = m.get(i, j);
            acc = acc.plus(value.times(value));
        }
    }
    acc
}

/// The largest magnitude among the entries, starting from zero.
pub open spec fn s_matrix_max_abs<S: Scalar>(m: &Matrix<S>) -> S {
    s_grid_max(
        S::s_zero(),
        m.nrows() as int,
        m.ncols() as int,
        |i: int, j: int| m.at(i, j).s_magnitude(),
    )
}

pub fn matrix_max_abs<S: Scalar>(m: &Matrix<S>) -> (r: S)
    requires
        m.wf(),
    ensures
        r == s_matrix_max_abs(m),
{
    let ghost f = |i: int, j: int| m.at(i, j).s_magnitude();
    let rows: usize = m.row_count();
    let cols: usize = m.col_count();
    let mut acc: S = S::zero();
    for i in 0..rows
        invariant
            m.has_shape(rows as nat, cols as nat),
            f == (|i: int, j: int| m.at(i, j).s_magnitude()),
            acc == s_grid_max(S::s_zero(), i as int, cols as int, f),
    {
        for j in 0..cols
            invariant
                m.has_shape(rows as nat, cols as nat),
                i < rows,
                f == (|i: int, j: int| m.at(i, j).s_magnitude()),
                acc == s_line_max(
                    s_grid_max(S::s_zero(), i as int, cols as int, f),
                    i as int,
                    j as int,
                    f,
                ),
        {
            acc = acc.larger(m.get(i, j).magnitude());
        }
    }
    acc
}

/// Entry `(i, j)` of a product, accumulated from zero over the first `n`
/// inner positions.
pub open spec fn s_product_at<S: Scalar>(
    left: &Matrix<S>,
    right: &Matrix<S>,
    i: int,
    j: int,
    n: int,
) -> S {
    s_sum(S::s_zero(), n, |k: int| left.at(i, k).s_times(right.at(k, j)))
}

/// `out` is `left * right`.
pub open spec fn is_matrix_product<S: Scalar>(
    left: &Matrix<S>,
    right: &Matrix<S>,
    out: &Matrix<S>,
) -> bool {
    &&& out.has_shape(left.nrows(), right.ncols())
    &&& forall|i: int, j: int|
        0 <= i < out.nrows() && 0 <= j < out.ncols() ==> #[trigger] out.at(i, j) == s_product_at(
            left,
            right,
            i,
            j,
            left.ncols() as int,
        )
}

pub fn product<S: Scalar>(left: &Matrix<S>, right: &Matrix<S>) -> (out: Matrix<S>)
    requires
        left.wf(),
        right.wf(),
        left.ncols() == right.nrows(),
        left.nrows() * right.ncols() <= usize::MAX,
    ensures
        is_matrix_product(left, right, &out),
{
    let rows: usize = left.row_count();
    let cols: usize = right.col_count();
    let inner: usize = left.col_count();
    let mut out: Matrix<S> = Matrix::constant(rows, cols, S::zero());
    for i in 0..rows
        invariant
            left.has_shape(rows as nat, inner as nat),
            right.has_shape(inner as nat, cols as nat),
            out.has_shape(rows as nat, cols as nat),
            forall|a: int, b: int|
                0 <= a < i && 0 <= b < cols ==> #[trigger] out.at(a, b) == s_product_at(
                    left,
                    right,
                    a,
                    b,
                    inner as int,
                ),
    {
        for j in 0..cols
            invariant
                left.has_shape(rows as nat, inner as nat),
                right.has_shape(inner as nat, cols as nat),
                out.has_shape(rows as nat, cols as nat),
                i < rows,
                forall|a: int, b: int|
                    0 <= a < rows && 0 <= b < cols && (a < i || (a == i && b < j))
                        ==> #[trigger] out.at(a, b) == s_product_at(
                        left,
                        right,
                        a,
                        b,
                        inner as int,
                    ),
        {
            let mut acc: S = S::zero();
            for k in 0..inner
                invariant
                    left.has_shape(rows as nat, inner as nat),
                    right.has_shape(inner as nat, cols as nat),
                    i < rows,
                    j < cols,
                    acc == s_product_at(left, right, i as int, j as int, k as int),
            {
                acc = acc.plus(left.get(i, k).times(right.get(k, j)));
            }
            out.set(i, j, acc);
        }
    }
    out
}

/// Entry `(i, j)` of `left' * right`, accumulated from zero over the first `n`
/// rows.
pub open spec fn s_transposed_product_at<S: Scalar>(
    left: &Matrix<S>,
    right: &Matrix<S>,
    i: int,
    j: int,
    n: int,
) -> S {
    s_sum(S::s_zero(), n, |k: int| left.at(k, i).s_times(right.at(k, j)))
}

/// `out` is `left' * right`.
pub open spec fn is_transposed_product<S: Scalar>(
    left: &Matrix<S>,
    right: &Matrix<S>,
    out: &Matrix<S>,
) -> bool {
    &&& out.has_shape(left.ncols(), right.ncols())
    &&& forall|i: int, j: int|
        0 <= i < out.nrows() && 0 <= j < out.ncols() ==> #[trigger] out.at(i, j)
            == s_transposed_product_at(left, right, i, j, left.nrows() as int)
}

pub fn transposed_product<S: Scalar>(left: &Matrix<S>, right: &Matrix<S>) -> (out: Matrix<S>)
    requires
        left.wf(),
        right.wf(),
        left.nrows() == right.nrows(),
        left.ncols() * right.ncols() <= usize::MAX,
    ensures
        is_transposed_product(left, right, &out),
{
    let rows: usize = left.col_count();
    let cols: usize = right.col_count();
    let inner: usize = left.row_count();
    let mut out: Matrix<S> = Matrix::constant(rows, cols, S::zero());
    for i in 0..rows
        invariant
            left.has_shape(inner as nat, rows as nat),
            right.has_shape(inner as nat, cols as nat),
            out.has_shape(rows as nat, cols as nat),
            forall|a: int, b: int|
                0 <= a < i && 0 <= b < cols ==> #[trigger] out.at(a, b) == s_transposed_product_at(
                    left,
                    right,
                    a,
                    b,
                    inner as int,
                ),
    {
        for j in 0..cols
            invariant
                left.has_shape(inner as nat, rows as nat),
                right.has_shape(inner as nat, cols as nat),
                out.has_shape(rows as nat, cols as nat),
                i < rows,
                forall|a: int, b: int|
                    0 <= a < rows && 0 <= b < cols && (a < i || (a == i && b < j))
                        ==> #[trigger] out.at(a, b) == s_transposed_product_at(
                        left,
                        right,
                        a,
                        b,
                        inner as int,
                    ),
        {
            let mut acc: S = S::zero();
            for k in 0..inner
                invariant
                    left.has_shape(inner as nat, rows as nat),
                    right.has_shape(inner as nat, cols as nat),
                    i < rows,
                    j < cols,
                    acc == s_transposed_product_at(left, right, i as int, j as int, k as int),
            {
                acc = acc.plus(left.get(k, i).times(right.get(k, j)));
            }
            out.set(i, j, acc);
        }
    }
    out
}

/// `out` is the symmetric part of `m`.
pub open spec fn is_symmetric_part<S: Scalar>(m: &Matrix<S>, out: &Matrix<S>) -> bool {
    &&& out.has_shape(m.nrows(), m.nrows())
    &&& forall|i: int, j: int|
        0 <= i < out.nrows() && 0 <= j < out.ncols() ==> #[trigger] out.at(i, j) == m.at(
            i,
            j,
        ).s_plus(m.at(j, i)).s_times(s_half::<S>())
}

pub fn symmetric_part<S: Scalar>(m: &Matrix<S>) -> (out: Matrix<S>)
    requires
        m.wf(),
        m.nrows() == m.ncols(),
    ensures
        is_symmetric_part(m, &out),
{
    let n: usize = m.row_count();
    let mut out: Matrix<S> = m.copy();
    for i in 0..n
        invariant
            m.has_shape(n as nat, n as nat),
            out.has_shape(n as nat, n as nat),
            forall|a: int, b: int|
                0 <= a < i && 0 <= b < n ==> #[trigger] out.at(a, b) == m.at(a, b).s_plus(
                    m.at(b, a),
                ).s_times(s_half::<S>()),
    {
        for j in 0..n
            invariant
                m.has_shape(n as nat, n as nat),
                out.has_shape(n as nat, n as nat),
                i < n,
                forall|a: int, b: int|
                    0 <= a < n && 0 <= b < n && (a < i || (a == i && b < j))
                        ==> #[trigger] out.at(a, b) == m.at(a, b).s_plus(m.at(b, a)).s_times(
                        s_half::<S>(),
                    ),
        {
            let value: S = m.get(i, j).plus(m.get(j, i)).times(half::<S>());
            out.set(i, j, value);
        }
    }
    out
}

} // verus!
