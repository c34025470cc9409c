//! Matrices of exact rationals, with validated kinds.
//!
//! A `Matrix` is a row-major grid of rationals.  A `Stochastic` matrix
//! is one whose every column is a probability distribution; a
//! `ReducedRowEchelon` matrix is produced only by the identity
//! constructor or by Gauss-Jordan reduction.  The validated kinds are
//! produced only by their checking conversions.

use crate::rational::{
    add_d, add_n, lemma_frac_chain, lemma_frac_to_frac, lemma_pos_prod, mul_d, mul_n, norm_fits,
    norm_rat, rat_eq_frac, spec_neg, Rat,
};
use crate::vector::{
    dot_d, dot_fits, dot_n, first_nz, is_prob_dist, sum_fits, sum_state, vec_wf, Probability,
    Vector,
};
use crate::RankError;
use vstd::prelude::*;

verus! {

/// Every row has exactly `cols` well-formed entries.
pub open spec fn grid_wf(g: Seq<Seq<Rat>>, cols: int) -> bool {
    &&& forall|i: int| 0 <= i < g.len() ==> (#[trigger] g[i]).len() == cols
    &&& forall|i: int, j: int| 0 <= i < g.len() && 0 <= j < cols ==> (#[trigger] g[i][j]).wf()
}

/// The column `c` of the grid, read top to bottom.
pub open spec fn col_seq(g: Seq<Seq<Rat>>, c: int) -> Seq<Rat> {
    Seq::new(g.len(), |r: int| g[r][c])
}

/// A square grid with ones on the diagonal and zeros elsewhere.
pub open spec fn is_identity_grid(g: Seq<Seq<Rat>>, n: int) -> bool {
    &&& g.len() == n
    &&& grid_wf(g, n)
    &&& forall|i: int, j: int|
        0 <= i < n && 0 <= j < n ==> ((#[trigger] g[i][j]).n() == if i == j {
            g[i][j].d()
        } else {
            0
        })
}

/// A general matrix of exact rationals, stored by rows.
#[derive(Clone, Debug, PartialEq, Eq)]
pub struct Matrix {
    cols: usize,
    rows_vec: Vec<Vector>,
}

impl View for Matrix {
    type V = Seq<Seq<Rat>>;

    closed spec fn view(&self) -> Seq<Seq<Rat>> {
        self.rows_vec@.map_values(|v: Vector| v@)
    }
}

/// The view of a matrix indexes into the views of its stored rows.
proof fn lemma_mat_index(m: Matrix, i: int)
    requires
        0 <= i < m@.len(),
    ensures
        m@[i] == m.rows_vec@[i]@,
        m@.len() == m.rows_vec@.len(),
{
}

/// Every row of the view is the view of the stored row.
proof fn lemma_mat_views(m: Matrix)
    ensures
        m@.len() == m.rows_vec@.len(),
        forall|p: int| 0 <= p < m@.len() ==> m@[p] == (#[trigger] m.rows_vec@[p])@,
{
    assert forall|p: int| 0 <= p < m@.len() implies m@[p] == (#[trigger] m.rows_vec@[p])@ by {
        lemma_mat_index(m, p);
    }
}

impl Matrix {
    /// The declared number of columns.
    pub closed spec fn spec_cols(self) -> int {
        self.cols as int
    }

    /// Shape and entries are well-formed.
    pub open spec fn wf(self) -> bool {
        grid_wf(self@, self.spec_cols())
    }

    /// The number of rows.
    pub fn rows(&self) -> (r: usize)
        ensures
            r == self@.len(),
    {
        self.rows_vec.len()
    }

    /// The number of columns.
    pub fn cols(&self) -> (r: usize)
        ensures
            r == self.spec_cols(),
    {
        self.cols
    }

    /// The entry in row `r`, column `c`.
    pub fn get(&self, r: usize, c: usize) -> (v: Rat)
        requires
            r < self@.len(),
            c < self@[r as int].len(),
        ensures
            v == self@[r as int][c as int],
    {
        proof {
            lemma_mat_index(*self, r as int);
        }
        self.rows_vec[r].get(c)
    }

    /// The all-zero matrix with `m` rows and `n` columns.
    pub fn zero_matrix(m: usize, n: usize) -> (r: Matrix)
        ensures
            r.wf(),
            r@.len() == m,
            r.spec_cols() == n,
            forall|i: int, j: int| 0 <= i < m && 0 <= j < n ==> (#[trigger] r@[i][j]) == norm_rat(
                0,
                1,
            ),
            forall|i: int, j: int| 0 <= i < m && 0 <= j < n ==> (#[trigger] r@[i][j]).n() == 0,
    {
        Matrix::filled(m, n, Rat::zero())
    }

    /// The matrix with `m` rows and `n` columns holding `v` everywhere.
    pub fn filled(m: usize, n: usize, v: Rat) -> (r: Matrix)
        ensures
            r@.len() == m,
            r.spec_cols() == n,
            v.wf() ==> r.wf(),
            forall|i: int, j: int| 0 <= i < m && 0 <= j < n ==> (#[trigger] r@[i][j]) == v,
    {
        let mut rows_vec: Vec<Vector> = Vec::new();
        let mut i: usize = 0;
        while i < m
            invariant
                0 <= i <= m,
                rows_vec@.len() == i,
                forall|p: int| 0 <= p < i ==> (#[trigger] rows_vec@[p])@.len() == n,
                forall|p: int, q: int|
                    0 <= p < i && 0 <= q < n ==> (#[trigger] rows_vec@[p]@[q]) == v,
            decreases m - i,
        {
            let mut data: Vec<Rat> = Vec::new();
            let mut j: usize = 0;
            while j < n
                invariant
                    0 <= j <= n,
                    data@.len() == j,
                    forall|q: int| 0 <= q < j ==> (#[trigger] data@[q]) == v,
                decreases n - j,
            {
                data.push(v);
                j = j + 1;
            }
            rows_vec.push(Vector::from_data(data));
            i = i + 1;
        }
        let res = Matrix { cols: n, rows_vec };
        proof {
            lemma_mat_views(res);
        }
        res
    }

    /// The `n` by `n` identity, already in reduced row-echelon form.
    pub fn identity(n: usize) -> (r: ReducedRowEchelon)
        ensures
            is_identity_grid(r@, n as int),
            r@.len() == n,
            r.spec_cols() == n,
            forall|i: int, j: int|
                0 <= i < n && 0 <= j < n ==> (#[trigger] r@[i][j]) == (if i == j {
                    norm_rat(1, 1)
                } else {
                    norm_rat(0, 1)
                }),
    {
        let mut rows_vec: Vec<Vector> = Vec::new();
        let mut i: usize = 0;
        while i < n
            invariant
                0 <= i <= n,
                rows_vec@.len() == i,
                forall|p: int| 0 <= p < i ==> (#[trigger] rows_vec@[p])@.len() == n,
                forall|p: int, q: int|
                    0 <= p < i && 0 <= q < n ==> (#[trigger] rows_vec@[p]@[q]).wf(),
                forall|p: int, q: int|
                    0 <= p < i && 0 <= q < n ==> (#[trigger] rows_vec@[p]@[q]) == (if p == q {
                        norm_rat(1, 1)
                    } else {
                        norm_rat(0, 1)
                    }),
                forall|p: int, q: int|
                    0 <= p < i && 0 <= q < n ==> ((#[trigger] rows_vec@[p]@[q]).n() == if p == q {
                        rows_vec@[p]@[q].d()
                    } else {
                        0
                    }),
            decreases n - i,
        {
            let mut row = Vector::zero_vector(n);
            row.set(i, Rat::one());
            rows_vec.push(row);
            i = i + 1;
        }
        let res = Matrix { cols: n, rows_vec };
        proof {
            lemma_mat_views(res);
        }
        ReducedRowEchelon { mat: res }
    }

    /// Builds a matrix from its rows; every row must have the same
    /// length.
    pub fn from_rows(rows_in: Vec<Vector>) -> (r: Result<Matrix, RankError>)
        ensures
            r is Ok <==> forall|i: int|
                0 <= i < rows_in@.len() ==> (#[trigger] rows_in@[i])@.len() == rows_in@[0]@.len(),
            r matches Ok(m) ==> {
                &&& m@.len() == rows_in@.len()
                &&& m.spec_cols() == if rows_in@.len() == 0 {
                    0int
                } else {
                    rows_in@[0]@.len() as int
                }
                &&& forall|i: int| 0 <= i < rows_in@.len() ==> m@[i] == (#[trigger] rows_in@[i])@
            },
            r is Err ==> r == Err::<Matrix, RankError>(RankError::DimensionMismatch),
    {
        if rows_in.len() == 0 {
            let res = Matrix { cols: 0, rows_vec: rows_in };
            proof {
                lemma_mat_views(res);
            }
            return Ok(res);
        }
        let n = rows_in[0].len();
        let mut i: usize = 0;
        while i < rows_in.len()
            invariant
                0 <= i <= rows_in@.len(),
                rows_in@.len() > 0,
                n == rows_in@[0]@.len(),
                forall|p: int| 0 <= p < i ==> (#[trigger] rows_in@[p])@.len() == n,
            decreases rows_in@.len() - i,
        {
            if rows_in[i].len() != n {
                return Err(RankError::DimensionMismatch);
            }
            i = i + 1;
        }
        let res = Matrix { cols: n, rows_vec: rows_in };
        proof {
            lemma_mat_views(res);
        }
        Ok(res)
    }

    /// Builds a matrix from its column vectors; every column must have
    /// the same length.  An empty column list yields the zero-by-zero
    /// matrix: the row count of a matrix with rows but no columns is
    /// not recoverable from its (empty) column list, so rebuilding
    /// such a matrix from `column_vectors` loses its row count.
    pub fn from_vectors(cols_in: Vec<Vector>) -> (r: Result<Matrix, RankError>)
        ensures
            r is Ok <==> forall|c: int|
                0 <= c < cols_in@.len() ==> (#[trigger] cols_in@[c])@.len() == cols_in@[0]@.len(),
            r matches Ok(m) ==> {
                &&& m@.len() == if cols_in@.len() == 0 {
                    0int
                } else {
                    cols_in@[0]@.len() as int
                }
                &&& m.spec_cols() == cols_in@.len()
                &&& forall|i: int| 0 <= i < m@.len() ==> (#[trigger] m@[i]).len() == cols_in@.len()
                &&& forall|i: int, c: int|
                    0 <= i < m@.len() && 0 <= c < cols_in@.len() ==> (#[trigger] m@[i][c])
                        == cols_in@[c]@[i]
            },
            r is Err ==> r == Err::<Matrix, RankError>(RankError::DimensionMismatch),
    {
        if cols_in.len() == 0 {
            let res = Matrix { cols: 0, rows_vec: Vec::new() };
            proof {
                lemma_mat_views(res);
            }
            return Ok(res);
        }
        let m = cols_in[0].len();
        let mut c: usize = 0;
        while c < cols_in.len()
            invariant
                0 <= c <= cols_in@.len(),
                cols_in@.len() > 0,
                m == cols_in@[0]@.len(),
                forall|p: int| 0 <= p < c ==> (#[trigger] cols_in@[p])@.len() == m,
            decreases cols_in@.len() - c,
        {
            if cols_in[c].len() != m {
                return Err(RankError::DimensionMismatch);
            }
            c = c + 1;
        }
        let mut rows_vec: Vec<Vector> = Vec::new();
        let mut i: usize = 0;
        while i < m
            invariant
                0 <= i <= m,
                m == cols_in@[0]@.len(),
                forall|p: int| 0 <= p < cols_in@.len() ==> (#[trigger] cols_in@[p])@.len() == m,
                rows_vec@.len() == i,
                forall|p: int| 0 <= p < i ==> (#[trigger] rows_vec@[p])@.len() == cols_in@.len(),
                forall|p: int, q: int|
                    0 <= p < i && 0 <= q < cols_in@.len() ==> (#[trigger] rows_vec@[p]@[q])
                        == cols_in@[q]@[p],
            decreases m - i,
        {
            let mut data: Vec<Rat> = Vec::new();
            let mut j: usize = 0;
            while j < cols_in.len()
                invariant
                    0 <= j <= cols_in@.len(),
                    i < m,
                    m == cols_in@[0]@.len(),
                    forall|p: int| 0 <= p < cols_in@.len() ==> (#[trigger] cols_in@[p])@.len() == m,
                    data@.len() == j,
                    forall|q: int| 0 <= q < j ==> (#[trigger] data@[q]) == cols_in@[q]@[i as int],
                decreases cols_in@.len() - j,
            {
                data.push(cols_in[j].get(i));
                j = j + 1;
            }
            rows_vec.push(Vector::from_data(data));
            i = i + 1;
        }
        let res = Matrix { cols: cols_in.len(), rows_vec };
        proof {
            lemma_mat_views(res);
        }
        Ok(res)
    }

    /// Builds an `m` by `n` matrix from flat row-major data; fails with
    /// `DimensionMismatch` exactly when the data length is not `m * n`.
    pub fn from_data(data: Vec<Rat>, m: usize, n: usize) -> (r: Result<Matrix, RankError>)
        requires
            vec_wf(data@),
        ensures
            r is Ok <==> data@.len() == m * n,
            r matches Ok(mat) ==> {
                &&& mat@.len() == m
                &&& mat.spec_cols() == n
                &&& mat.wf()
                &&& forall|i: int, j: int|
                    0 <= i < m && 0 <= j < n ==> (#[trigger] mat@[i][j]) == data@[i * (
                    n as int) + j]
            },
            r is Err ==> r == Err::<Matrix, RankError>(RankError::DimensionMismatch),
    {
        proof {
            lemma_mn_bounds(m as int, n as int);
        }
        if n == 0 {
            if data.len() != 0 {
                return Err(RankError::DimensionMismatch);
            }
            let mut rows_vec: Vec<Vector> = Vec::new();
            let mut i: usize = 0;
            while i < m
                invariant
                    0 <= i <= m,
                    rows_vec@.len() == i,
                    forall|p: int| 0 <= p < i ==> (#[trigger] rows_vec@[p])@.len() == 0,
                decreases m - i,
            {
                rows_vec.push(Vector::from_data(Vec::new()));
                i = i + 1;
            }
            let res = Matrix { cols: 0, rows_vec };
            proof {
                lemma_mat_views(res);
                assert(res.wf());
            }
            return Ok(res);
        }
        if data.len() / n != m || data.len() % n != 0 {
            proof {
                lemma_div_exact(data@.len() as int, m as int, n as int);
            }
            return Err(RankError::DimensionMismatch);
        }
        proof {
            lemma_div_exact(data@.len() as int, m as int, n as int);
        }
        let total: usize = data.len();
        let mut rows_vec: Vec<Vector> = Vec::new();
        let mut i: usize = 0;
        let mut idx: usize = 0;
        while i < m
            invariant
                0 <= i <= m,
                data@.len() == m * n,
                data@.len() == total,
                n > 0,
                idx == i * n,
                rows_vec@.len() == i,
                forall|p: int| 0 <= p < i ==> (#[trigger] rows_vec@[p])@.len() == n,
                forall|p: int, q: int|
                    0 <= p < i && 0 <= q < n ==> (#[trigger] rows_vec@[p]@[q]) == data@[p * (
                    n as int) + q],
            decreases m - i,
        {
            let mut row: Vec<Rat> = Vec::new();
            let mut j: usize = 0;
            proof {
                lemma_row_offset(i as int, m as int, n as int);
            }
            while j < n
                invariant
                    0 <= j <= n,
                    i < m,
                    data@.len() == m * n,
                    data@.len() == total,
                    i * n + n <= m * n,
                    idx == i * n + j,
                    row@.len() == j,
                    forall|q: int|
                        0 <= q < j ==> (#[trigger] row@[q]) == data@[i as int * (n as int) + q],
                decreases n - j,
            {
                row.push(data[idx]);
                idx = idx + 1;
                j = j + 1;
            }
            rows_vec.push(Vector::from_data(row));
            i = i + 1;
            proof {
                assert(idx == i * n) by (nonlinear_arith)
                    requires
                        idx == (i - 1) * n + n,
                {
                }
            }
        }
        let res = Matrix { cols: n, rows_vec };
        proof {
            lemma_mat_views(res);
            assert forall|i2: int, j2: int|
                0 <= i2 < res@.len() && 0 <= j2 < res.spec_cols() implies (
            #[trigger] res@[i2][j2]).wf() by {
                lemma_row_offset(i2, m as int, n as int);
                assert(res@[i2][j2] == data@[i2 * (n as int) + j2]);
            }
            assert(res.wf());
        }
        Ok(res)
    }

    /// The rows of the matrix, as general vectors.
    pub fn row_vectors(&self) -> (r: Vec<Vector>)
        ensures
            r@.len() == self@.len(),
            forall|i: int| 0 <= i < self@.len() ==> (#[trigger] r@[i])@ == self@[i],
    {
        let mut out: Vec<Vector> = Vec::new();
        let mut i: usize = 0;
        while i < self.rows_vec.len()
            invariant
                0 <= i <= self@.len(),
                out@.len() == i,
                forall|p: int| 0 <= p < i ==> (#[trigger] out@[p])@ == self@[p],
            decreases self@.len() - i,
        {
            out.push(self.get_row(i));
            i = i + 1;
        }
        out
    }

    /// The row at position `i`, as a general vector.
    pub fn get_row(&self, i: usize) -> (r: Vector)
        requires
            i < self@.len(),
        ensures
            r@ == self@[i as int],
    {
        proof {
            lemma_mat_index(*self, i as int);
        }
        let row = &self.rows_vec[i];
        let mut data: Vec<Rat> = Vec::new();
        let mut j: usize = 0;
        while j < row.len()
            invariant
                0 <= j <= row@.len(),
                data@.len() == j,
                forall|q: int| 0 <= q < j ==> (#[trigger] data@[q]) == row@[q],
            decreases row@.len() - j,
        {
            data.push(row.get(j));
            j = j + 1;
        }
        proof {
            assert(data@ =~= self@[i as int]);
        }
        Vector::from_data(data)
    }

    /// The columns of the matrix, as general vectors.
    pub fn column_vectors(&self) -> (r: Vec<Vector>)
        requires
            self.wf(),
        ensures
            r@.len() == self.spec_cols(),
            forall|c: int| 0 <= c < self.spec_cols() ==> (#[trigger] r@[c])@ == col_seq(self@, c),
    {
        let mut out: Vec<Vector> = Vec::new();
        let mut c: usize = 0;
        while c < self.cols
            invariant
                0 <= c <= self.spec_cols(),
                self.wf(),
                out@.len() == c,
                forall|p: int| 0 <= p < c ==> (#[trigger] out@[p])@ == col_seq(self@, p),
            decreases self.spec_cols() - c,
        {
            let mut data: Vec<Rat> = Vec::new();
            let mut i: usize = 0;
            while i < self.rows_vec.len()
                invariant
                    0 <= i <= self@.len(),
                    c < self.spec_cols(),
                    self.wf(),
                    data@.len() == i,
                    forall|q: int| 0 <= q < i ==> (#[trigger] data@[q]) == self@[q][c as int],
                decreases self@.len() - i,
            {
                proof {
                    lemma_mat_index(*self, i as int);
                }
                data.push(self.rows_vec[i].get(c));
                i = i + 1;
            }
            proof {
                assert(data@ =~= col_seq(self@, c as int));
            }
            out.push(Vector::from_data(data));
            c = c + 1;
        }
        out
    }

    /// Exact scaling of every entry by `k`; `NumericOverflow` exactly
    /// when some reduced product no longer fits the machine word.
    pub fn scalar_multiply(&self, k: &Rat) -> (r: Result<Matrix, RankError>)
        requires
            self.wf(),
            k.wf(),
        ensures
            r is Ok <==> forall|i: int, j: int|
                0 <= i < self@.len() && 0 <= j < self.spec_cols() ==> norm_fits(
                    mul_n(#[trigger] self@[i][j], *k),
                    mul_d(self@[i][j], *k),
                ),
            r matches Ok(m) ==> {
                &&& m@.len() == self@.len()
                &&& m.spec_cols() == self.spec_cols()
                &&& m.wf()
                &&& forall|i: int, j: int|
                    0 <= i < self@.len() && 0 <= j < self.spec_cols() ==> (#[trigger] m@[i][j])
                        == norm_rat(mul_n(self@[i][j], *k), mul_d(self@[i][j], *k))
                &&& forall|i: int, j: int|
                    0 <= i < self@.len() && 0 <= j < self.spec_cols() ==> rat_eq_frac(
                        #[trigger] m@[i][j],
                        mul_n(self@[i][j], *k),
                        mul_d(self@[i][j], *k),
                    )
            },
            r is Err ==> r == Err::<Matrix, RankError>(RankError::NumericOverflow),
    {
        let mut out: Vec<Vector> = Vec::new();
        let mut i: usize = 0;
        while i < self.rows_vec.len()
            invariant
                0 <= i <= self@.len(),
                self.wf(),
                k.wf(),
                out@.len() == i,
                forall|p: int| 0 <= p < i ==> (#[trigger] out@[p])@.len() == self.spec_cols(),
                forall|p: int, q: int|
                    0 <= p < i && 0 <= q < self.spec_cols() ==> (#[trigger] out@[p]@[q]).wf(),
                forall|p: int, q: int|
                    0 <= p < i && 0 <= q < self.spec_cols() ==> norm_fits(
                        mul_n(#[trigger] self@[p][q], *k),
                        mul_d(self@[p][q], *k),
                    ),
                forall|p: int, q: int|
                    0 <= p < i && 0 <= q < self.spec_cols() ==> (#[trigger] out@[p]@[q])
                        == norm_rat(mul_n(self@[p][q], *k), mul_d(self@[p][q], *k)),
                forall|p: int, q: int|
                    0 <= p < i && 0 <= q < self.spec_cols() ==> rat_eq_frac(
                        #[trigger] out@[p]@[q],
                        mul_n(self@[p][q], *k),
                        mul_d(self@[p][q], *k),
                    ),
            decreases self@.len() - i,
        {
            proof {
                lemma_mat_index(*self, i as int);
            }
            let row = &self.rows_vec[i];
            match row.scalar_multiply(k) {
                Ok(v) => {
                    out.push(v);
                    i = i + 1;
                },
                Err(_) => {
                    return Err(RankError::NumericOverflow);
                },
            }
        }
        let res = Matrix { cols: self.cols, rows_vec: out };
        proof {
            lemma_mat_views(res);
        }
        Ok(res)
    }

    /// Exact entry-wise addition.  Fails with `DimensionMismatch` when
    /// the shapes differ, and with `NumericOverflow` exactly when some
    /// reduced entry sum no longer fits the machine word.
    pub fn matrix_addition(&self, other: &Matrix) -> (r: Result<Matrix, RankError>)
        requires
            self.wf(),
            other.wf(),
        ensures
            !(self@.len() == other@.len() && self.spec_cols() == other.spec_cols()) ==> r == Err::<
                Matrix,
                RankError,
            >(RankError::DimensionMismatch),
            self@.len() == other@.len() && self.spec_cols() == other.spec_cols() ==> (r is Ok
                <==> forall|i: int, j: int|
                0 <= i < self@.len() && 0 <= j < self.spec_cols() ==> norm_fits(
                    add_n(#[trigger] self@[i][j], other@[i][j]),
                    add_d(self@[i][j], other@[i][j]),
                )),
            r matches Ok(m) ==> {
                &&& m@.len() == self@.len()
                &&& m.spec_cols() == self.spec_cols()
                &&& m.wf()
                &&& forall|i: int, j: int|
                    0 <= i < self@.len() && 0 <= j < self.spec_cols() ==> (#[trigger] m@[i][j])
                        == norm_rat(
                        add_n(self@[i][j], other@[i][j]),
                        add_d(self@[i][j], other@[i][j]),
                    )
                &&& forall|i: int, j: int|
                    0 <= i < self@.len() && 0 <= j < self.spec_cols() ==> rat_eq_frac(
                        #[trigger] m@[i][j],
                        add_n(self@[i][j], other@[i][j]),
                        add_d(self@[i][j], other@[i][j]),
                    )
            },
            r is Err ==> r == Err::<Matrix, RankError>(RankError::DimensionMismatch) || r == Err::<
                Matrix,
                RankError,
            >(RankError::NumericOverflow),
            self@.len() == other@.len() && self.spec_cols() == other.spec_cols() && r is Err ==> r
                == Err::<Matrix, RankError>(RankError::NumericOverflow),
    {
        if self.rows_vec.len() != other.rows_vec.len() || self.cols != other.cols {
            return Err(RankError::DimensionMismatch);
        }
        let mut out: Vec<Vector> = Vec::new();
        let mut i: usize = 0;
        while i < self.rows_vec.len()
            invariant
                0 <= i <= self@.len(),
                self@.len() == other@.len(),
                self.spec_cols() == other.spec_cols(),
                self.wf(),
                other.wf(),
                out@.len() == i,
                forall|p: int| 0 <= p < i ==> (#[trigger] out@[p])@.len() == self.spec_cols(),
                forall|p: int, q: int|
                    0 <= p < i && 0 <= q < self.spec_cols() ==> (#[trigger] out@[p]@[q]).wf(),
                forall|p: int, q: int|
                    0 <= p < i && 0 <= q < self.spec_cols() ==> norm_fits(
                        add_n(#[trigger] self@[p][q], other@[p][q]),
                        add_d(self@[p][q], other@[p][q]),
                    ),
                forall|p: int, q: int|
                    0 <= p < i && 0 <= q < self.spec_cols() ==> (#[trigger] out@[p]@[q])
                        == norm_rat(
                        add_n(self@[p][q], other@[p][q]),
                        add_d(self@[p][q], other@[p][q]),
                    ),
                forall|p: int, q: int|
                    0 <= p < i && 0 <= q < self.spec_cols() ==> rat_eq_frac(
                        #[trigger] out@[p]@[q],
                        add_n(self@[p][q], other@[p][q]),
                        add_d(self@[p][q], other@[p][q]),
                    ),
            decreases self@.len() - i,
        {
            proof {
                lemma_mat_index(*self, i as int);
                lemma_mat_index(*other, i as int);
            }
            match self.rows_vec[i].vector_addition(&other.rows_vec[i]) {
                Ok(v) => {
                    out.push(v);
                    i = i + 1;
                },
                Err(RankError::DimensionMismatch) => {
                    proof {
                        assert(false);
                    }
                    return Err(RankError::DimensionMismatch);
                },
                Err(_) => {
                    return Err(RankError::NumericOverflow);
                },
            }
        }
        let res = Matrix { cols: self.cols, rows_vec: out };
        proof {
            lemma_mat_views(res);
        }
        Ok(res)
    }

    /// Exact entry-wise subtraction, as addition of the other matrix
    /// scaled by minus one.
    pub fn matrix_subtraction(&self, other: &Matrix) -> (r: Result<Matrix, RankError>)
        requires
            self.wf(),
            other.wf(),
        ensures
            !(self@.len() == other@.len() && self.spec_cols() == other.spec_cols()) ==> r == Err::<
                Matrix,
                RankError,
            >(RankError::DimensionMismatch),
            self@.len() == other@.len() && self.spec_cols() == other.spec_cols() ==> (r is Ok
                <==> forall|i: int, j: int|
                0 <= i < self@.len() && 0 <= j < self.spec_cols() ==> norm_fits(
                    (#[trigger] self@[i][j]).n() * other@[i][j].d() - other@[i][j].n()
                        * self@[i][j].d(),
                    add_d(self@[i][j], other@[i][j]),
                )),
            r matches Ok(m) ==> {
                &&& m@.len() == self@.len()
                &&& m.spec_cols() == self.spec_cols()
                &&& m.wf()
                &&& forall|i: int, j: int|
                    0 <= i < self@.len() && 0 <= j < self.spec_cols() ==> (#[trigger] m@[i][j])
                        == norm_rat(
                        self@[i][j].n() * other@[i][j].d() - other@[i][j].n() * self@[i][j].d(),
                        add_d(self@[i][j], other@[i][j]),
                    )
                &&& forall|i: int, j: int|
                    0 <= i < self@.len() && 0 <= j < self.spec_cols() ==> rat_eq_frac(
                        #[trigger] m@[i][j],
                        self@[i][j].n() * other@[i][j].d() - other@[i][j].n() * self@[i][j].d(),
                        add_d(self@[i][j], other@[i][j]),
                    )
            },
            r is Err ==> r == Err::<Matrix, RankError>(RankError::DimensionMismatch) || r == Err::<
                Matrix,
                RankError,
            >(RankError::NumericOverflow),
            self@.len() == other@.len() && self.spec_cols() == other.spec_cols() && r is Err ==> r
                == Err::<Matrix, RankError>(RankError::NumericOverflow),
    {
        if self.rows_vec.len() != other.rows_vec.len() || self.cols != other.cols {
            return Err(RankError::DimensionMismatch);
        }
        let mut out: Vec<Vector> = Vec::new();
        let mut i: usize = 0;
        while i < self.rows_vec.len()
            invariant
                0 <= i <= self@.len(),
                self@.len() == other@.len(),
                self.spec_cols() == other.spec_cols(),
                self.wf(),
                other.wf(),
                out@.len() == i,
                forall|p: int| 0 <= p < i ==> (#[trigger] out@[p])@.len() == self.spec_cols(),
                forall|p: int, q: int|
                    0 <= p < i && 0 <= q < self.spec_cols() ==> (#[trigger] out@[p]@[q]).wf(),
                forall|p: int, q: int|
                    0 <= p < i && 0 <= q < self.spec_cols() ==> norm_fits(
                        (#[trigger] self@[p][q]).n() * other@[p][q].d() - other@[p][q].n()
                            * self@[p][q].d(),
                        add_d(self@[p][q], other@[p][q]),
                    ),
                forall|p: int, q: int|
                    0 <= p < i && 0 <= q < self.spec_cols() ==> (#[trigger] out@[p]@[q])
                        == norm_rat(
                        self@[p][q].n() * other@[p][q].d() - other@[p][q].n() * self@[p][q].d(),
                        add_d(self@[p][q], other@[p][q]),
                    ),
                forall|p: int, q: int|
                    0 <= p < i && 0 <= q < self.spec_cols() ==> rat_eq_frac(
                        #[trigger] out@[p]@[q],
                        self@[p][q].n() * other@[p][q].d() - other@[p][q].n() * self@[p][q].d(),
                        add_d(self@[p][q], other@[p][q]),
                    ),
            decreases self@.len() - i,
        {
            proof {
                lemma_mat_index(*self, i as int);
                lemma_mat_index(*other, i as int);
            }
            match self.rows_vec[i].vector_subtraction(&other.rows_vec[i]) {
                Ok(v) => {
                    out.push(v);
                    i = i + 1;
                },
                Err(RankError::DimensionMismatch) => {
                    proof {
                        assert(false);
                    }
                    return Err(RankError::DimensionMismatch);
                },
                Err(_) => {
                    return Err(RankError::NumericOverflow);
                },
            }
        }
        let res = Matrix { cols: self.cols, rows_vec: out };
        proof {
            lemma_mat_views(res);
        }
        Ok(res)
    }
}

impl Matrix {
    /// A structurally identical copy.
    pub fn duplicate(&self) -> (r: Matrix)
        ensures
            r@ == self@,
            r.spec_cols() == self.spec_cols(),
    {
        let rows_vec = self.row_vectors();
        let r = Matrix { cols: self.cols, rows_vec };
        proof {
            assert(r@ =~= self@);
        }
        r
    }
}

/// A matrix in reduced row-echelon form: produced only by the identity
/// constructor or by Gauss-Jordan reduction, whose public contract
/// guarantees the full invariant — leading ones, cleared pivot
/// columns, strictly increasing pivot columns, zero rows at the
/// bottom.
#[derive(Clone, Debug, PartialEq, Eq)]
pub struct ReducedRowEchelon {
    mat: Matrix,
}

impl View for ReducedRowEchelon {
    type V = Seq<Seq<Rat>>;

    closed spec fn view(&self) -> Seq<Seq<Rat>> {
        self.mat@
    }
}

impl ReducedRowEchelon {
    /// The declared number of columns.
    pub closed spec fn spec_cols(self) -> int {
        self.mat.spec_cols()
    }

    /// Shape and entries are well-formed.
    pub open spec fn wf(self) -> bool {
        grid_wf(self@, self.spec_cols())
    }

    /// The number of rows.
    pub fn rows(&self) -> (r: usize)
        ensures
            r == self@.len(),
    {
        self.mat.rows()
    }

    /// The number of columns.
    pub fn cols(&self) -> (r: usize)
        ensures
            r == self.spec_cols(),
    {
        self.mat.cols()
    }

    /// The entry in row `r`, column `c`.
    pub fn get(&self, r: usize, c: usize) -> (v: Rat)
        requires
            r < self@.len(),
            c < self@[r as int].len(),
        ensures
            v == self@[r as int][c as int],
    {
        self.mat.get(r, c)
    }

    /// The same entries as a general matrix.
    pub fn general(&self) -> (r: Matrix)
        ensures
            r@ == self@,
            r.spec_cols() == self.spec_cols(),
    {
        self.mat.duplicate()
    }
}

/// Is `p` the position of the first nonzero entry of the row?
pub open spec fn is_pivot(row: Seq<Rat>, p: int) -> bool {
    &&& 0 <= p < row.len()
    &&& row[p].n() != 0
    &&& forall|j: int| 0 <= j < p ==> row[j].n() == 0
}

/// Every nonzero row's leading entry is one, and a leading entry's
/// column is zero in every other row.
pub open spec fn reduced_pivots(g: Seq<Seq<Rat>>) -> bool {
    &&& forall|i: int, p: int|
        0 <= i < g.len() && #[trigger] is_pivot(g[i], p) ==> g[i][p].n() == g[i][p].d()
    &&& forall|i: int, k: int, p: int|
        0 <= i < g.len() && 0 <= k < g.len() && k != i && #[trigger] is_pivot(g[i], p) ==> (
        #[trigger] g[k])[p].n() == 0
}

/// Every entry of the row is zero.
pub open spec fn row_zero(row: Seq<Rat>) -> bool {
    forall|c: int| 0 <= c < row.len() ==> (#[trigger] row[c]).n() == 0
}

/// The reduced row-echelon invariant: each nonzero row's leading entry
/// is one, a pivot's column is zero in every other row, pivots
/// strictly increase in column index down the rows, and all-zero rows
/// sit below every nonzero row.
pub open spec fn is_rref_grid(g: Seq<Seq<Rat>>) -> bool {
    &&& reduced_pivots(g)
    &&& forall|i: int, k: int, p: int, q: int|
        0 <= i < k < g.len() && #[trigger] is_pivot(g[i], p) && #[trigger] is_pivot(g[k], q)
            ==> p < q
    &&& forall|i: int, k: int|
        0 <= i < k < g.len() && row_zero(#[trigger] g[i]) ==> row_zero(#[trigger] g[k])
}

/// The leading entries of the rows whose pivot bookkeeping is recorded
/// are one, their columns are zero everywhere else, and recorded
/// all-zero rows are all zero.
spec fn processed_reduced(rs: Seq<Vector>, pcs: Seq<Option<int>>, ncols: int) -> bool {
    &&& forall|r: int|
        0 <= r < pcs.len() && (#[trigger] pcs[r]) is Some ==> {
            let c = pcs[r]->Some_0;
            &&& 0 <= c < ncols
            &&& rs[r]@[c].n() == rs[r]@[c].d()
            &&& (forall|j: int| 0 <= j < c ==> (#[trigger] rs[r]@[j]).n() == 0)
            &&& (forall|k: int| 0 <= k < rs.len() && k != r ==> (#[trigger] rs[k]@)[c].n() == 0)
        }
    &&& forall|r: int, j: int|
        0 <= r < pcs.len() && (#[trigger] pcs[r]) is None && 0 <= j < ncols ==> (
        #[trigger] rs[r]@[j]).n() == 0
}

/// A value naming a product with a zero factor is zero.
proof fn lemma_mul_zero(a: Rat, k: Rat, v: Rat)
    requires
        a.wf(),
        k.wf(),
        v.wf(),
        a.n() == 0,
        rat_eq_frac(v, mul_n(a, k), mul_d(a, k)),
    ensures
        v.n() == 0,
{
    assert(mul_n(a, k) == 0) by (nonlinear_arith)
        requires
            a.n() == 0,
    {
    }
    assert(mul_n(a, k) * v.d() == 0) by (nonlinear_arith)
        requires
            mul_n(a, k) == 0,
    {
    }
    lemma_pos_prod(a.d(), k.d());
    assert(v.n() == 0) by (nonlinear_arith)
        requires
            v.n() * mul_d(a, k) == 0,
            mul_d(a, k) > 0,
    {
    }
}

/// A value naming a product with a factor of one names the other
/// factor.
proof fn lemma_mul_one(a: Rat, k: Rat, v: Rat)
    requires
        a.wf(),
        k.wf(),
        v.wf(),
        a.n() == a.d(),
        rat_eq_frac(v, mul_n(a, k), mul_d(a, k)),
    ensures
        v.n() * k.d() == k.n() * v.d(),
{
    assert((a.n() * k.n()) * v.d() == a.d() * (k.n() * v.d())) by (nonlinear_arith)
        requires
            a.n() == a.d(),
    {
    }
    assert(v.n() * (a.d() * k.d()) == a.d() * (v.n() * k.d())) by (nonlinear_arith) {
    }
    assert(v.n() * k.d() == k.n() * v.d()) by (nonlinear_arith)
        requires
            a.d() * (v.n() * k.d()) == a.d() * (k.n() * v.d()),
            a.d() > 0,
    {
    }
}

/// Scaling a row entry by the reciprocal of the pivot makes it one.
proof fn lemma_scale_pivot_one(p: Rat, sc: Rat, v: Rat)
    requires
        p.wf(),
        sc.wf(),
        v.wf(),
        sc.n() * p.n() == p.d() * sc.d(),
        rat_eq_frac(v, mul_n(p, sc), mul_d(p, sc)),
    ensures
        v.n() == v.d(),
{
    assert((p.n() * sc.n()) * v.d() == (p.d() * sc.d()) * v.d()) by (nonlinear_arith)
        requires
            sc.n() * p.n() == p.d() * sc.d(),
    {
    }
    lemma_pos_prod(p.d(), sc.d());
    assert(v.n() == v.d()) by (nonlinear_arith)
        requires
            v.n() * (p.d() * sc.d()) == (p.d() * sc.d()) * v.d(),
            p.d() * sc.d() > 0,
    {
    }
}

/// Subtracting a zero-valued entry keeps a zero zero and a one one.
proof fn lemma_sub_zero(r: Rat, s: Rat, v: Rat)
    requires
        r.wf(),
        s.wf(),
        v.wf(),
        s.n() == 0,
        rat_eq_frac(v, r.n() * s.d() - s.n() * r.d(), add_d(r, s)),
    ensures
        r.n() == 0 ==> v.n() == 0,
        r.n() == r.d() ==> v.n() == v.d(),
{
    assert(s.n() * r.d() == 0) by (nonlinear_arith)
        requires
            s.n() == 0,
    {
    }
    lemma_pos_prod(r.d(), s.d());
    if r.n() == 0 {
        assert(r.n() * s.d() == 0) by (nonlinear_arith)
            requires
                r.n() == 0,
        {
        }
        assert((r.n() * s.d() - s.n() * r.d()) * v.d() == 0) by (nonlinear_arith)
            requires
                r.n() * s.d() - s.n() * r.d() == 0,
        {
        }
        assert(v.n() == 0) by (nonlinear_arith)
            requires
                v.n() * add_d(r, s) == 0,
                add_d(r, s) > 0,
        {
        }
    }
    if r.n() == r.d() {
        assert((r.n() * s.d() - s.n() * r.d()) * v.d() == (r.d() * s.d()) * v.d())
            by (nonlinear_arith)
            requires
                r.n() == r.d(),
                s.n() * r.d() == 0,
        {
        }
        assert(v.n() == v.d()) by (nonlinear_arith)
            requires
                v.n() * add_d(r, s) == add_d(r, s) * v.d(),
                add_d(r, s) > 0,
        {
        }
    }
}

/// Subtracting an entry of the same value leaves zero.
proof fn lemma_sub_cancel(r: Rat, s: Rat, v: Rat)
    requires
        r.wf(),
        s.wf(),
        v.wf(),
        s.n() * r.d() == r.n() * s.d(),
        rat_eq_frac(v, r.n() * s.d() - s.n() * r.d(), add_d(r, s)),
    ensures
        v.n() == 0,
{
    lemma_pos_prod(r.d(), s.d());
    assert((r.n() * s.d() - s.n() * r.d()) * v.d() == 0) by (nonlinear_arith)
        requires
            r.n() * s.d() - s.n() * r.d() == 0,
    {
    }
    assert(v.n() == 0) by (nonlinear_arith)
        requires
            v.n() * add_d(r, s) == 0,
            add_d(r, s) > 0,
    {
    }
}

/// The scaled row, entry by entry, in reduced form.
pub open spec fn scale_row(row: Seq<Rat>, k: Rat) -> Seq<Rat> {
    Seq::new(row.len(), |j: int| norm_rat(mul_n(row[j], k), mul_d(row[j], k)))
}

/// Does every reduced entry of the scaled row fit the machine word?
pub open spec fn scale_row_fits(row: Seq<Rat>, k: Rat) -> bool {
    forall|j: int| 0 <= j < row.len() ==> norm_fits(mul_n(#[trigger] row[j], k), mul_d(row[j], k))
}

/// The entry-wise difference of two rows, in reduced form.
pub open spec fn sub_row(a: Seq<Rat>, b: Seq<Rat>) -> Seq<Rat> {
    Seq::new(
        a.len(),
        |j: int| norm_rat(a[j].n() * b[j].d() - b[j].n() * a[j].d(), add_d(a[j], b[j])),
    )
}

/// Does every reduced entry of the difference fit the machine word?
pub open spec fn sub_row_fits(a: Seq<Rat>, b: Seq<Rat>) -> bool {
    forall|j: int|
        0 <= j < a.len() ==> norm_fits(
            (#[trigger] a[j]).n() * b[j].d() - b[j].n() * a[j].d(),
            add_d(a[j], b[j]),
        )
}

/// Clearing column `idx` with pivot row `i`, over the rows from `k`
/// on: each row with a nonzero entry there has the scaled pivot row
/// subtracted from it.  Absent when a reduced entry overflows.
pub open spec fn gj_eliminate(rows: Seq<Seq<Rat>>, i: int, idx: int, k: int) -> Option<
    Seq<Seq<Rat>>,
>
    decreases rows.len() - k,
{
    if k < 0 || k >= rows.len() {
        Some(rows)
    } else if k == i || rows[k][idx].n() == 0 {
        gj_eliminate(rows, i, idx, k + 1)
    } else if scale_row_fits(rows[i], rows[k][idx]) {
        let scaled = scale_row(rows[i], rows[k][idx]);
        if sub_row_fits(rows[k], scaled) {
            gj_eliminate(rows.update(k, sub_row(rows[k], scaled)), i, idx, k + 1)
        } else {
            None
        }
    } else {
        None
    }
}

/// The Gauss-Jordan run from row `i` on: scale the row's first nonzero
/// entry to one, then clear its column from every other row.  Absent
/// when a reduced entry overflows.
pub open spec fn gj_rows(rows: Seq<Seq<Rat>>, i: int) -> Option<Seq<Seq<Rat>>>
    decreases rows.len() - i,
{
    if i < 0 || i >= rows.len() {
        Some(rows)
    } else {
        match first_nz(rows[i], 0) {
            None => gj_rows(rows, i + 1),
            Some(idx) => {
                let p = rows[i][idx];
                let scaled_rows = if p.n() == p.d() {
                    Some(rows)
                } else if norm_fits(p.d(), p.n()) && scale_row_fits(
                    rows[i],
                    norm_rat(p.d(), p.n()),
                ) {
                    Some(rows.update(i, scale_row(rows[i], norm_rat(p.d(), p.n()))))
                } else {
                    None
                };
                match scaled_rows {
                    None => None,
                    Some(rs) => match gj_eliminate(rs, i, idx, 0) {
                        None => None,
                        Some(rs2) => if rs2.len() == rows.len() {
                            gj_rows(rs2, i + 1)
                        } else {
                            None
                        },
                    },
                }
            },
        }
    }
}

/// The exact result of Gauss-Jordan elimination on the grid; absent
/// exactly when some reduced intermediate overflows the machine word.
pub open spec fn gauss_jordan(g: Seq<Seq<Rat>>) -> Option<Seq<Seq<Rat>>> {
    gj_rows(g, 0)
}

impl Matrix {
    /// The elimination pass of Gauss-Jordan: for each row in order,
    /// scale its first nonzero entry to one and clear that entry's
    /// column from every other row, leaving the rows in place.  The
    /// result is exactly the specified Gauss-Jordan run of the input,
    /// and the run fails exactly when a reduced intermediate overflows
    /// the machine word.  A matrix that already has reduced pivots
    /// comes back unchanged.
    fn eliminate(&self) -> (r: Result<Matrix, RankError>)
        requires
            self.wf(),
        ensures
            r matches Ok(m) ==> {
                &&& m@.len() == self@.len()
                &&& m.spec_cols() == self.spec_cols()
                &&& m.wf()
                &&& reduced_pivots(m@)
                &&& gauss_jordan(self@) == Some(m@)
            },
            r is Err <==> gauss_jordan(self@) is None,
            reduced_pivots(self@) ==> (r matches Ok(m) && m@ == self@),
            r is Err ==> r == Err::<Matrix, RankError>(RankError::NumericOverflow),
    {
        let ghost orig = self@;
        let ghost ncols = self.spec_cols();
        let n_rows = self.rows_vec.len();
        let mut rows: Vec<Vector> = self.row_vectors();
        let ghost mut pcs: Seq<Option<int>> = Seq::empty();
        let ghost mut w: Seq<Seq<Rat>> = orig;
        let mut i: usize = 0;
        while i < n_rows
            invariant
                0 <= i <= n_rows,
                orig == self@,
                ncols == self.spec_cols(),
                n_rows == orig.len(),
                grid_wf(orig, ncols),
                rows@.len() == orig.len(),
                forall|p: int| 0 <= p < orig.len() ==> (#[trigger] rows@[p])@.len() == ncols,
                forall|p: int| 0 <= p < orig.len() ==> vec_wf((#[trigger] rows@[p])@),
                pcs.len() == i,
                processed_reduced(rows@, pcs, ncols),
                w.len() == orig.len(),
                forall|p: int| 0 <= p < orig.len() ==> (#[trigger] rows@[p])@ == w[p],
                gauss_jordan(orig) == gj_rows(w, i as int),
                reduced_pivots(orig) ==> forall|p: int|
                    0 <= p < orig.len() ==> (#[trigger] rows@[p])@ == orig[p],
            decreases n_rows - i,
        {
            match rows[i].first_non_zero_term() {
                None => {
                    proof {
                        pcs = pcs.push(None);
                        assert(first_nz(w[i as int], 0) is None);
                        assert(gj_rows(w, i as int) == gj_rows(w, i + 1));
                    }
                    i = i + 1;
                },
                Some(idx) => {
                    proof {
                        if reduced_pivots(orig) {
                            assert(is_pivot(orig[i as int], idx as int));
                        }
                        assert(first_nz(w[i as int], 0) == Some(idx as int));
                    }
                    let pivot = rows[i].get(idx);
                    if !pivot.is_one() {
                        proof {
                            assert(!reduced_pivots(orig));
                        }
                        let one = Rat::one();
                        match one.checked_div(&pivot) {
                            None => {
                                proof {
                                    assert(1 * pivot.d() == pivot.d() && 1 * pivot.n()
                                        == pivot.n());
                                    assert(!norm_fits(pivot.d(), pivot.n()));
                                    assert(gj_rows(w, i as int) is None);
                                }
                                return Err(RankError::NumericOverflow);
                            },
                            Some(sc) => {
                                proof {
                                    assert(1 * pivot.d() == pivot.d() && 1 * pivot.n()
                                        == pivot.n());
                                    assert(sc == norm_rat(pivot.d(), pivot.n()));
                                    assert(norm_fits(pivot.d(), pivot.n()));
                                }
                                match rows[i].scalar_multiply(&sc) {
                                    Err(_) => {
                                        proof {
                                            assert(!scale_row_fits(w[i as int], sc));
                                            assert(gj_rows(w, i as int) is None);
                                        }
                                        return Err(RankError::NumericOverflow);
                                    },
                                    Ok(newrow) => {
                                        proof {
                                            let oldrow = rows@[i as int]@;
                                            assert forall|j: int|
                                                0 <= j < ncols && oldrow[j].n() == 0 implies (
                                            #[trigger] newrow@[j]).n() == 0 by {
                                                lemma_mul_zero(oldrow[j], sc, newrow@[j]);
                                            }
                                            lemma_scale_pivot_one(
                                                oldrow[idx as int],
                                                sc,
                                                newrow@[idx as int],
                                            );
                                            assert forall|r: int|
                                                0 <= r < pcs.len() && (#[trigger] pcs[r]) is Some
                                                implies rows@.update(i as int, newrow)[r]@[pcs[r]
                                                ->Some_0].n() == rows@.update(
                                                i as int,
                                                newrow,
                                            )[r]@[pcs[r]->Some_0].d() by {
                                                assert(r != i);
                                            }
                                            assert(processed_reduced(
                                                rows@.update(i as int, newrow),
                                                pcs,
                                                ncols,
                                            ));
                                            assert(scale_row_fits(w[i as int], sc));
                                            assert(newrow@ =~= scale_row(w[i as int], sc));
                                        }
                                        rows.set(i, newrow);
                                        proof {
                                            let w0 = w;
                                            w = w.update(i as int, newrow@);
                                            assert(gj_rows(w0, i as int) == (
                                            match gj_eliminate(w, i as int, idx as int, 0) {
                                                Some(rs2) => if rs2.len() == orig.len() {
                                                    gj_rows(rs2, i + 1)
                                                } else {
                                                    None::<Seq<Seq<Rat>>>
                                                },
                                                None => None::<Seq<Seq<Rat>>>,
                                            }));
                                        }
                                    },
                                }
                            },
                        }
                    } else {
                        proof {
                            assert(pivot.n() == pivot.d());
                            assert(gj_rows(w, i as int) == (match gj_eliminate(
                                w,
                                i as int,
                                idx as int,
                                0,
                            ) {
                                Some(rs2) => if rs2.len() == orig.len() {
                                    gj_rows(rs2, i + 1)
                                } else {
                                    None::<Seq<Seq<Rat>>>
                                },
                                None => None::<Seq<Seq<Rat>>>,
                            }));
                        }
                    }
                    let mut k: usize = 0;
                    while k < n_rows
                        invariant
                            0 <= k <= n_rows,
                            i < n_rows,
                            orig == self@,
                            ncols == self.spec_cols(),
                            n_rows == orig.len(),
                            idx < ncols,
                            grid_wf(orig, ncols),
                            rows@.len() == orig.len(),
                            forall|p: int|
                                0 <= p < orig.len() ==> (#[trigger] rows@[p])@.len() == ncols,
                            forall|p: int| 0 <= p < orig.len() ==> vec_wf((#[trigger] rows@[p])@),
                            pcs.len() == i,
                            processed_reduced(rows@, pcs, ncols),
                            w.len() == orig.len(),
                            forall|p: int| 0 <= p < orig.len() ==> (#[trigger] rows@[p])@ == w[p],
                            gauss_jordan(orig) == (match gj_eliminate(
                                w,
                                i as int,
                                idx as int,
                                k as int,
                            ) {
                                Some(rs2) => if rs2.len() == orig.len() {
                                    gj_rows(rs2, i + 1)
                                } else {
                                    None::<Seq<Seq<Rat>>>
                                },
                                None => None::<Seq<Seq<Rat>>>,
                            }),
                            rows@[i as int]@[idx as int].n() == rows@[i as int]@[idx as int].d(),
                            forall|j: int|
                                0 <= j < idx ==> (#[trigger] rows@[i as int]@[j]).n() == 0,
                            forall|q: int|
                                0 <= q < k && q != i ==> (#[trigger] rows@[q]@)[idx as int].n()
                                    == 0,
                            reduced_pivots(orig) ==> forall|p: int|
                                0 <= p < orig.len() ==> (#[trigger] rows@[p])@ == orig[p],
                            reduced_pivots(orig) ==> is_pivot(orig[i as int], idx as int),
                        decreases n_rows - k,
                    {
                        if k != i {
                            let val = rows[k].get(idx);
                            if !val.is_zero() {
                                proof {
                                    assert(!reduced_pivots(orig));
                                }
                                match rows[i].scalar_multiply(&val) {
                                    Err(_) => {
                                        proof {
                                            assert(!scale_row_fits(w[i as int], val));
                                            assert(gj_eliminate(
                                                w,
                                                i as int,
                                                idx as int,
                                                k as int,
                                            ) is None);
                                        }
                                        return Err(RankError::NumericOverflow);
                                    },
                                    Ok(scaled) => {
                                        proof {
                                            assert(scaled@ =~= scale_row(w[i as int], val));
                                        }
                                        match rows[k].vector_subtraction(&scaled) {
                                            Err(_) => {
                                                proof {
                                                    assert(!sub_row_fits(w[k as int], scaled@));
                                                    assert(gj_eliminate(
                                                        w,
                                                        i as int,
                                                        idx as int,
                                                        k as int,
                                                    ) is None);
                                                }
                                                return Err(RankError::NumericOverflow);
                                            },
                                            Ok(newrow) => {
                                                proof {
                                                    let rowi = rows@[i as int]@;
                                                    let rowk = rows@[k as int]@;
                                                    let upd = rows@.update(k as int, newrow);
                                                    // entries over zero columns of the pivot
                                                    // row are unchanged in value
                                                    assert forall|j: int|
                                                        0 <= j < ncols && rowi[j].n() == 0 implies {
                                                        &&& (rowk[j].n() == 0 ==> (
                                                        #[trigger] newrow@[j]).n() == 0)
                                                        &&& (rowk[j].n() == rowk[j].d()
                                                            ==> newrow@[j].n() == newrow@[j].d())
                                                    } by {
                                                        lemma_mul_zero(rowi[j], val, scaled@[j]);
                                                        lemma_sub_zero(
                                                            rowk[j],
                                                            scaled@[j],
                                                            newrow@[j],
                                                        );
                                                    }
                                                    // the pivot column itself is cleared
                                                    lemma_mul_one(
                                                        rowi[idx as int],
                                                        val,
                                                        scaled@[idx as int],
                                                    );
                                                    lemma_sub_cancel(
                                                        val,
                                                        scaled@[idx as int],
                                                        newrow@[idx as int],
                                                    );
                                                    // recorded pivots survive the update
                                                    assert forall|r: int|
                                                        0 <= r < pcs.len() && (
                                                    #[trigger] pcs[r]) is Some implies {
                                                        let c = pcs[r]->Some_0;
                                                        &&& upd[r]@[c].n() == upd[r]@[c].d()
                                                        &&& (forall|j: int|
                                                            0 <= j < c ==> (
                                                            #[trigger] upd[r]@[j]).n() == 0)
                                                        &&& (forall|k2: int|
                                                            0 <= k2 < upd.len() && k2 != r ==> (
                                                            #[trigger] upd[k2]@)[c].n() == 0)
                                                    } by {
                                                        let c = pcs[r]->Some_0;
                                                        assert(rowi[c].n() == 0);
                                                        if k as int == r {
                                                            assert(rowk[idx as int].n() != 0);
                                                            if idx as int == c {
                                                                assert(rowi[c].n() == 0);
                                                                assert(is_pivot(rowi, idx as int)
                                                                    ==> false);
                                                            }
                                                            assert(idx as int != c);
                                                            if (idx as int) < c {
                                                                assert(rowk[idx as int].n() == 0);
                                                            }
                                                            assert(c < idx as int);
                                                            assert forall|j: int|
                                                                0 <= j < c implies (
                                                            #[trigger] upd[r]@[j]).n() == 0 by {
                                                                assert(rowi[j].n() == 0);
                                                                assert(rowk[j].n() == 0);
                                                            }
                                                        } else {
                                                            assert forall|k2: int|
                                                                0 <= k2 < upd.len() && k2 != r
                                                                implies (#[trigger] upd[k2]@)[
                                                                c].n() == 0 by {
                                                                if k2 == k as int {
                                                                    assert(rowk[c].n() == 0);
                                                                }
                                                            }
                                                        }
                                                    }
                                                    assert(processed_reduced(upd, pcs, ncols));
                                                    // earlier cleared entries stay cleared
                                                    assert forall|q: int|
                                                        0 <= q < k + 1 && q != i implies (
                                                    #[trigger] upd[q]@)[idx as int].n() == 0 by {
                                                    }
                                                }
                                                rows.set(k, newrow);
                                                proof {
                                                    assert(newrow@ =~= sub_row(
                                                        w[k as int],
                                                        scaled@,
                                                    ));
                                                    let w0 = w;
                                                    w = w.update(k as int, newrow@);
                                                    assert(gj_eliminate(
                                                        w0,
                                                        i as int,
                                                        idx as int,
                                                        k as int,
                                                    ) == gj_eliminate(
                                                        w,
                                                        i as int,
                                                        idx as int,
                                                        k + 1,
                                                    ));
                                                }
                                            },
                                        }
                                    },
                                }
                            } else {
                                proof {
                                    assert(w[k as int][idx as int].n() == 0);
                                    assert(gj_eliminate(w, i as int, idx as int, k as int)
                                        == gj_eliminate(w, i as int, idx as int, k + 1));
                                }
                            }
                        } else {
                            proof {
                                assert(gj_eliminate(w, i as int, idx as int, k as int)
                                    == gj_eliminate(w, i as int, idx as int, k + 1));
                            }
                        }
                        k = k + 1;
                    }
                    proof {
                        assert(gj_eliminate(w, i as int, idx as int, n_rows as int) == Some(w));
                        assert(gauss_jordan(orig) == gj_rows(w, i + 1));
                        pcs = pcs.push(Some(idx as int));
                        assert forall|r: int|
                            0 <= r < pcs.len() && (#[trigger] pcs[r]) is Some implies {
                            let c = pcs[r]->Some_0;
                            &&& 0 <= c < ncols
                            &&& rows@[r]@[c].n() == rows@[r]@[c].d()
                            &&& (forall|j: int| 0 <= j < c ==> (#[trigger] rows@[r]@[j]).n() == 0)
                            &&& (forall|k2: int|
                                0 <= k2 < rows@.len() && k2 != r ==> (#[trigger] rows@[k2]@)[
                                c].n() == 0)
                        } by {
                        }
                        assert(processed_reduced(rows@, pcs, ncols));
                    }
                    i = i + 1;
                },
            }
        }
        let res = Matrix { cols: self.cols, rows_vec: rows };
        proof {
            lemma_mat_views(res);
            assert(gj_rows(w, n_rows as int) == Some(w));
            assert(res@ =~= w);
            if reduced_pivots(orig) {
                assert(res@ =~= orig);
            }
            assert forall|i2: int, p: int|
                0 <= i2 < res@.len() && #[trigger] is_pivot(res@[i2], p) implies res@[i2][p].n()
                == res@[i2][p].d() by {
                if pcs[i2] is Some {
                    let c = pcs[i2]->Some_0;
                    if p < c {
                        assert(res@[i2][p].n() == 0);
                    } else if p > c {
                        assert(res@[i2][c].n() == 0);
                        assert(res@[i2][c].n() == res@[i2][c].d());
                        assert(res@[i2][c].wf());
                    }
                } else {
                    assert(res@[i2][p].n() == 0);
                }
            }
            assert forall|i2: int, k2: int, p: int|
                0 <= i2 < res@.len() && 0 <= k2 < res@.len() && k2 != i2 && #[trigger] is_pivot(
                res@[i2],
                p,
            ) implies (#[trigger] res@[k2])[p].n() == 0 by {
                if pcs[i2] is Some {
                    let c = pcs[i2]->Some_0;
                    if p < c {
                        assert(res@[i2][p].n() == 0);
                    } else if p > c {
                        assert(res@[i2][c].n() == 0);
                        assert(res@[i2][c].n() == res@[i2][c].d());
                        assert(res@[i2][c].wf());
                    }
                    assert(p == c);
                } else {
                    assert(res@[i2][p].n() == 0);
                }
            }
        }
        Ok(res)
    }
}

/// Decides the sorting order between two recorded rows.
fn key_before(piv: &Vec<Option<usize>>, xi: usize, yi: usize) -> (r: bool)
    requires
        xi < piv@.len(),
        yi < piv@.len(),
    ensures
        r == sort_before(piv@, xi as int, yi as int),
{
    match piv[xi] {
        Some(p) => match piv[yi] {
            Some(q) => p < q || (p == q && xi < yi),
            None => true,
        },
        None => match piv[yi] {
            Some(_) => false,
            None => xi < yi,
        },
    }
}

impl Matrix {
    /// Gauss-Jordan reduction to reduced row-echelon form: the
    /// elimination pass, then a stable reorder of the rows so that
    /// pivot columns strictly increase and all-zero rows sink to the
    /// bottom.  The result satisfies the full reduced row-echelon
    /// invariant and is a row permutation of the exact Gauss-Jordan
    /// run of the input; the run fails exactly when a reduced
    /// intermediate overflows the machine word.  A matrix already in
    /// reduced row-echelon form comes back unchanged; since every
    /// result is in that form, reduction is idempotent.
    pub fn reduced_row_echelon(&self) -> (r: Result<ReducedRowEchelon, RankError>)
        requires
            self.wf(),
        ensures
            r matches Ok(m) ==> {
                &&& m@.len() == self@.len()
                &&& m.spec_cols() == self.spec_cols()
                &&& m.wf()
                &&& is_rref_grid(m@)
                &&& exists|perm: Seq<int>|
                    #[trigger] pivot_permutation(m@, gauss_jordan(self@)->Some_0, perm)
            },
            r is Err <==> gauss_jordan(self@) is None,
            is_rref_grid(self@) ==> (r matches Ok(m) && m@ == self@),
            r is Err ==> r == Err::<ReducedRowEchelon, RankError>(RankError::NumericOverflow),
    {
        let red = match self.eliminate() {
            Ok(m) => m,
            Err(_) => {
                return Err(RankError::NumericOverflow);
            },
        };
        let n = red.rows();
        let mut piv: Vec<Option<usize>> = Vec::new();
        let mut x: usize = 0;
        while x < n
            invariant
                0 <= x <= n,
                n == red@.len(),
                red.wf(),
                piv@.len() == x,
                forall|t: int|
                    0 <= t < x && (#[trigger] piv@[t]) is Some ==> is_pivot(
                        red@[t],
                        piv@[t]->Some_0 as int,
                    ),
                forall|t: int| 0 <= t < x && (#[trigger] piv@[t]) is None ==> row_zero(red@[t]),
            decreases n - x,
        {
            let row = red.get_row(x);
            piv.push(row.first_non_zero_term());
            x = x + 1;
        }
        let mut perm: Vec<usize> = Vec::new();
        let mut y: usize = 0;
        while y < n
            invariant
                0 <= y <= n,
                perm@.len() == y,
                forall|t: int| 0 <= t < y ==> (#[trigger] perm@[t]) == t,
            decreases n - y,
        {
            perm.push(y);
            y = y + 1;
        }
        let mut si: usize = 1;
        while si < perm.len()
            invariant
                si >= 1,
                n == red@.len(),
                red.wf(),
                reduced_pivots(red@),
                piv@.len() == n,
                perm@.len() == n,
                forall|t: int|
                    0 <= t < n && (#[trigger] piv@[t]) is Some ==> is_pivot(
                        red@[t],
                        piv@[t]->Some_0 as int,
                    ),
                forall|t: int| 0 <= t < n && (#[trigger] piv@[t]) is None ==> row_zero(red@[t]),
                forall|t: int| 0 <= t < n ==> (#[trigger] perm@[t]) < n,
                forall|a: int, b: int| 0 <= a < b < n ==> perm@[a] != perm@[b],
                forall|a: int, b: int|
                    0 <= a < b < si ==> sort_before(piv@, perm@[a] as int, perm@[b] as int),
                is_rref_grid(red@) ==> forall|t: int| 0 <= t < n ==> (#[trigger] perm@[t]) == t,
            decreases perm@.len() - si,
        {
            let mut j: usize = si;
            while j > 0
                invariant_except_break
                    0 <= j <= si,
                    si < n,
                    n == red@.len(),
                    red.wf(),
                    reduced_pivots(red@),
                    piv@.len() == n,
                    perm@.len() == n,
                    forall|t: int|
                        0 <= t < n && (#[trigger] piv@[t]) is Some ==> is_pivot(
                            red@[t],
                            piv@[t]->Some_0 as int,
                        ),
                    forall|t: int|
                        0 <= t < n && (#[trigger] piv@[t]) is None ==> row_zero(red@[t]),
                    forall|t: int| 0 <= t < n ==> (#[trigger] perm@[t]) < n,
                    forall|a: int, b: int| 0 <= a < b < n ==> perm@[a] != perm@[b],
                    forall|a: int, b: int|
                        0 <= a < b <= si && b != j ==> sort_before(
                            piv@,
                            perm@[a] as int,
                            perm@[b] as int,
                        ),
                    forall|b: int|
                        j < b <= si ==> sort_before(piv@, perm@[j as int] as int, perm@[b] as int),
                    is_rref_grid(red@) ==> forall|t: int|
                        0 <= t < n ==> (#[trigger] perm@[t]) == t,
                ensures
                    si < n,
                    n == red@.len(),
                    red.wf(),
                    reduced_pivots(red@),
                    piv@.len() == n,
                    perm@.len() == n,
                    forall|t: int|
                        0 <= t < n && (#[trigger] piv@[t]) is Some ==> is_pivot(
                            red@[t],
                            piv@[t]->Some_0 as int,
                        ),
                    forall|t: int|
                        0 <= t < n && (#[trigger] piv@[t]) is None ==> row_zero(red@[t]),
                    forall|t: int| 0 <= t < n ==> (#[trigger] perm@[t]) < n,
                    forall|a: int, b: int| 0 <= a < b < n ==> perm@[a] != perm@[b],
                    forall|a: int, b: int|
                        0 <= a < b <= si ==> sort_before(piv@, perm@[a] as int, perm@[b] as int),
                    is_rref_grid(red@) ==> forall|t: int|
                        0 <= t < n ==> (#[trigger] perm@[t]) == t,
                decreases j,
            {
                let go = key_before(&piv, perm[j], perm[j - 1]);
                if !go {
                    proof {
                        lemma_sort_before_total(piv@, perm@[j as int] as int, perm@[j - 1] as int);
                        assert forall|a: int, b: int|
                            0 <= a < b <= si implies sort_before(
                            piv@,
                            perm@[a] as int,
                            perm@[b] as int,
                        ) by {
                            if b == j {
                                if a < j - 1 {
                                    lemma_sort_before_trans(
                                        piv@,
                                        perm@[a] as int,
                                        perm@[j - 1] as int,
                                        perm@[j as int] as int,
                                    );
                                }
                            }
                        }
                    }
                    break ;
                }
                proof {
                    // a grid already in reduced row-echelon form never
                    // needs a swap
                    if is_rref_grid(red@) {
                        let kj = piv@[j as int];
                        let kj1 = piv@[j - 1];
                        if kj is Some {
                            let p = kj->Some_0 as int;
                            assert(is_pivot(red@[j as int], p));
                            if kj1 is Some {
                                let q = kj1->Some_0 as int;
                                assert(is_pivot(red@[j - 1], q));
                                assert(q < p);
                            } else {
                                assert(row_zero(red@[j - 1]));
                                assert(row_zero(red@[j as int]));
                                assert(red@[j as int][p].n() != 0);
                            }
                        }
                        assert(false);
                    }
                }
                let a = perm[j - 1];
                let b = perm[j];
                perm.set(j - 1, b);
                perm.set(j, a);
                j = j - 1;
                proof {
                    assert forall|a2: int, b2: int|
                        0 <= a2 < b2 <= si && b2 != j implies sort_before(
                        piv@,
                        perm@[a2] as int,
                        perm@[b2] as int,
                    ) by {
                        if b2 == j + 1 {
                            if a2 == j {
                            } else {
                            }
                        }
                    }
                    assert forall|b2: int|
                        j < b2 <= si implies sort_before(
                        piv@,
                        perm@[j as int] as int,
                        perm@[b2] as int,
                    ) by {
                    }
                }
            }
            si = si + 1;
        }
        let mut out_rows: Vec<Vector> = Vec::new();
        let mut t: usize = 0;
        while t < n
            invariant
                0 <= t <= n,
                n == red@.len(),
                red.wf(),
                perm@.len() == n,
                forall|q: int| 0 <= q < n ==> (#[trigger] perm@[q]) < n,
                out_rows@.len() == t,
                forall|q: int| 0 <= q < t ==> (#[trigger] out_rows@[q])@ == red@[perm@[q] as int],
            decreases n - t,
        {
            out_rows.push(red.get_row(perm[t]));
            t = t + 1;
        }
        let res = Matrix { cols: self.cols, rows_vec: out_rows };
        proof {
            lemma_mat_views(res);
            let pseq = Seq::new(n as nat, |i: int| perm@[i] as int);
            assert forall|i: int| 0 <= i < n implies #[trigger] res@[i] == red@[pseq[i]] by {
                assert(res@[i] == out_rows@[i]@);
            }
            lemma_reduced_distinct_pivots(red@);
            // the pivot of a reordered row is its recorded key
            assert forall|i: int, p: int|
                0 <= i < n && #[trigger] is_pivot(res@[i], p) implies piv@[pseq[i]] is Some && (
            piv@[pseq[i]]->Some_0 as int) == p by {
                if piv@[pseq[i]] is Some {
                    lemma_pivot_unique(red@[pseq[i]], p, piv@[pseq[i]]->Some_0 as int);
                } else {
                    assert(row_zero(red@[pseq[i]]));
                    assert(res@[i][p].n() != 0);
                }
            }
            assert forall|i: int, p: int|
                0 <= i < n && #[trigger] is_pivot(res@[i], p) implies res@[i][p].n()
                == res@[i][p].d() by {
                assert(is_pivot(red@[pseq[i]], p));
            }
            assert forall|i: int, k: int, p: int|
                0 <= i < n && 0 <= k < n && k != i && #[trigger] is_pivot(res@[i], p) implies (
            #[trigger] res@[k])[p].n() == 0 by {
                assert(is_pivot(red@[pseq[i]], p));
                assert(pseq[k] != pseq[i]);
            }
            assert forall|i: int, k: int, p: int, q: int|
                0 <= i < k < n && #[trigger] is_pivot(res@[i], p) && #[trigger] is_pivot(
                res@[k],
                q,
            ) implies p < q by {
                assert(sort_before(piv@, pseq[i], pseq[k]));
                if p == q {
                    assert(is_pivot(red@[pseq[i]], p));
                    assert(is_pivot(red@[pseq[k]], q));
                    assert(false);
                }
            }
            assert forall|i: int, k: int|
                0 <= i < k < n && row_zero(#[trigger] res@[i]) implies row_zero(
                #[trigger] res@[k]) by {
                if piv@[pseq[i]] is Some {
                    let p = piv@[pseq[i]]->Some_0 as int;
                    assert(is_pivot(red@[pseq[i]], p));
                    assert(res@[i][p].n() != 0);
                }
                assert(piv@[pseq[i]] is None);
                assert(sort_before(piv@, pseq[i], pseq[k]));
                assert(piv@[pseq[k]] is None);
                assert(row_zero(red@[pseq[k]]));
            }
            assert(is_rref_grid(res@));
            assert forall|i: int, k: int|
                0 <= i < k < n && row_zero(#[trigger] res@[i]) && row_zero(
                #[trigger] res@[k]) implies pseq[i] < pseq[k] by {
                if piv@[pseq[i]] is Some {
                    let p = piv@[pseq[i]]->Some_0 as int;
                    assert(is_pivot(red@[pseq[i]], p));
                    assert(res@[i][p].n() != 0);
                }
                assert(sort_before(piv@, pseq[i], pseq[k]));
            }
            assert(pivot_permutation(res@, red@, pseq));
            assert(pivot_permutation(res@, gauss_jordan(self@)->Some_0, pseq));
            assert forall|i: int| 0 <= i < res@.len() implies (#[trigger] res@[i]).len()
                == self.spec_cols() by {
                assert(res@[i] == red@[pseq[i]]);
            }
            assert forall|i: int, j2: int|
                0 <= i < res@.len() && 0 <= j2 < self.spec_cols() implies (
            #[trigger] res@[i][j2]).wf() by {
                assert(res@[i] == red@[pseq[i]]);
                assert(red@[pseq[i]][j2].wf());
            }
            assert(res.wf());
            if is_rref_grid(self@) {
                assert(red@ == self@);
                assert forall|i: int| 0 <= i < n implies #[trigger] res@[i] == self@[i] by {
                    assert(pseq[i] == i);
                }
                assert(res@ =~= self@);
            }
        }
        Ok(ReducedRowEchelon { mat: res })
    }
}

/// The pivot key of recorded row `x`, as a column index or absent for
/// an all-zero row.
pub open spec fn key_at(piv: Seq<Option<usize>>, x: int) -> Option<int> {
    match piv[x] {
        Some(u) => Some(u as int),
        None => None,
    }
}

/// The sorting order of two rows by pivot key: smaller pivot columns
/// first, all-zero rows last, ties kept in original order.
pub open spec fn row_key_before(ka: Option<int>, ia: int, kb: Option<int>, ib: int) -> bool {
    match (ka, kb) {
        (Some(p), Some(q)) => p < q || (p == q && ia < ib),
        (Some(p), None) => true,
        (None, Some(q)) => false,
        (None, None) => ia < ib,
    }
}

/// Should recorded row `x` come before recorded row `y`?
pub open spec fn sort_before(piv: Seq<Option<usize>>, x: int, y: int) -> bool {
    row_key_before(key_at(piv, x), x, key_at(piv, y), y)
}

/// The sorting order is transitive.
proof fn lemma_sort_before_trans(piv: Seq<Option<usize>>, x: int, y: int, z: int)
    requires
        sort_before(piv, x, y),
        sort_before(piv, y, z),
    ensures
        sort_before(piv, x, z),
{
}

/// The sorting order is total over distinct rows.
proof fn lemma_sort_before_total(piv: Seq<Option<usize>>, x: int, y: int)
    requires
        x != y,
        !sort_before(piv, x, y),
    ensures
        sort_before(piv, y, x),
{
}

/// Is `out` the rows of `red` rearranged by the permutation `perm`,
/// with all-zero rows kept in their original relative order?
pub open spec fn pivot_permutation(out: Seq<Seq<Rat>>, red: Seq<Seq<Rat>>, perm: Seq<int>) -> bool {
    &&& out.len() == red.len()
    &&& perm.len() == red.len()
    &&& (forall|i: int| 0 <= i < perm.len() ==> 0 <= #[trigger] perm[i] < red.len())
    &&& (forall|i: int, j: int| 0 <= i < j < perm.len() ==> perm[i] != perm[j])
    &&& (forall|i: int| 0 <= i < out.len() ==> #[trigger] out[i] == red[perm[i]])
    &&& (forall|i: int, j: int|
        0 <= i < j < perm.len() && row_zero(#[trigger] out[i]) && row_zero(#[trigger] out[j])
            ==> perm[i] < perm[j])
}

/// Does every row's exact dot product with `v` give back the entry of
/// `v` at that row?  This is the fixed-point equation of a stationary
/// distribution.
pub open spec fn is_fixed_point(g: Seq<Seq<Rat>>, v: Seq<Rat>) -> bool {
    forall|i: int|
        0 <= i < g.len() ==> dot_n(#[trigger] g[i], v) * v[i].d() == v[i].n() * dot_d(g[i], v)
}

/// Every column of the grid is a probability distribution.
pub open spec fn is_col_stochastic(g: Seq<Seq<Rat>>, cols: int) -> bool {
    forall|c: int| 0 <= c < cols ==> is_prob_dist(#[trigger] col_seq(g, c))
}

impl Matrix {
    /// Standard matrix multiplication by rows against columns.  Fails
    /// with `DimensionMismatch` when the inner dimensions differ, and
    /// with `NumericOverflow` exactly when some exact dot product no
    /// longer fits the machine word.
    pub fn matrix_multiply(&self, other: &Matrix) -> (r: Result<Matrix, RankError>)
        requires
            self.wf(),
            other.wf(),
        ensures
            self.spec_cols() != other@.len() ==> r == Err::<Matrix, RankError>(
                RankError::DimensionMismatch,
            ),
            self.spec_cols() == other@.len() ==> (r is Ok <==> forall|i: int, j: int|
                0 <= i < self@.len() && 0 <= j < other.spec_cols() ==> dot_fits(
                    #[trigger] self@[i],
                    #[trigger] col_seq(other@, j),
                )),
            r matches Ok(m) ==> {
                &&& m@.len() == self@.len()
                &&& m.spec_cols() == other.spec_cols()
                &&& m.wf()
                &&& forall|i: int, j: int|
                    0 <= i < self@.len() && 0 <= j < other.spec_cols() ==> rat_eq_frac(
                        #[trigger] m@[i][j],
                        dot_n(self@[i], col_seq(other@, j)),
                        dot_d(self@[i], col_seq(other@, j)),
                    )
            },
            r is Err ==> r == Err::<Matrix, RankError>(RankError::DimensionMismatch) || r == Err::<
                Matrix,
                RankError,
            >(RankError::NumericOverflow),
    {
        if self.cols != other.rows_vec.len() {
            proof {
                lemma_mat_views(*other);
            }
            return Err(RankError::DimensionMismatch);
        }
        let ocols = other.column_vectors();
        let mut out: Vec<Vector> = Vec::new();
        let mut i: usize = 0;
        while i < self.rows_vec.len()
            invariant
                0 <= i <= self@.len(),
                self.wf(),
                other.wf(),
                self.spec_cols() == other@.len(),
                ocols@.len() == other.spec_cols(),
                forall|c: int|
                    0 <= c < other.spec_cols() ==> (#[trigger] ocols@[c])@ == col_seq(other@, c),
                out@.len() == i,
                forall|p: int| 0 <= p < i ==> (#[trigger] out@[p])@.len() == other.spec_cols(),
                forall|p: int, q: int|
                    0 <= p < i && 0 <= q < other.spec_cols() ==> (#[trigger] out@[p]@[q]).wf(),
                forall|p: int, q: int|
                    0 <= p < i && 0 <= q < other.spec_cols() ==> dot_fits(
                        #[trigger] self@[p],
                        #[trigger] col_seq(other@, q),
                    ),
                forall|p: int, q: int|
                    0 <= p < i && 0 <= q < other.spec_cols() ==> rat_eq_frac(
                        #[trigger] out@[p]@[q],
                        dot_n(self@[p], col_seq(other@, q)),
                        dot_d(self@[p], col_seq(other@, q)),
                    ),
            decreases self@.len() - i,
        {
            let row = self.get_row(i);
            let mut data: Vec<Rat> = Vec::new();
            let mut j: usize = 0;
            while j < ocols.len()
                invariant
                    0 <= j <= other.spec_cols(),
                    i < self@.len(),
                    self.wf(),
                    other.wf(),
                    self.spec_cols() == other@.len(),
                    ocols@.len() == other.spec_cols(),
                    row@ == self@[i as int],
                    forall|c: int|
                        0 <= c < other.spec_cols() ==> (#[trigger] ocols@[c])@ == col_seq(
                            other@,
                            c,
                        ),
                    data@.len() == j,
                    forall|q: int| 0 <= q < j ==> (#[trigger] data@[q]).wf(),
                    forall|q: int|
                        0 <= q < j ==> dot_fits(self@[i as int], #[trigger] col_seq(other@, q)),
                    forall|q: int|
                        0 <= q < j ==> rat_eq_frac(
                            #[trigger] data@[q],
                            dot_n(self@[i as int], col_seq(other@, q)),
                            dot_d(self@[i as int], col_seq(other@, q)),
                        ),
                decreases other.spec_cols() - j,
            {
                match row.dot(&ocols[j]) {
                    Some(v) => {
                        data.push(v);
                        j = j + 1;
                    },
                    None => {
                        return Err(RankError::NumericOverflow);
                    },
                }
            }
            out.push(Vector::from_data(data));
            i = i + 1;
        }
        let res = Matrix { cols: other.cols, rows_vec: out };
        proof {
            lemma_mat_views(res);
        }
        Ok(res)
    }

    /// The basis of the kernel read off the reduced row-echelon form
    /// of this matrix: one vector per free column, a one at the free
    /// position, the negated entries of the pivot rows at their pivot
    /// positions, and zero at every other free column.  Every basis
    /// vector has an exact dot product of zero with every row of the
    /// reduced form.  Fails with `NumericOverflow` exactly when the
    /// reduction itself overflows the machine word.
    pub fn null_space(&self) -> (r: Result<Vec<Vector>, RankError>)
        requires
            self.wf(),
        ensures
            r is Err <==> gauss_jordan(self@) is None,
            r is Err ==> r == Err::<Vec<Vector>, RankError>(RankError::NumericOverflow),
            r matches Ok(vs) ==> ({
                let red = gauss_jordan(self@)->Some_0;
                &&& vs@.len() == free_cols(red, self.spec_cols()).len()
                &&& forall|k: int|
                    0 <= k < vs@.len() ==> (#[trigger] vs@[k])@.len() == self.spec_cols()
                        && vec_wf(vs@[k]@)
                &&& forall|k: int|
                    0 <= k < vs@.len() ==> basis_vector_shape(
                        red,
                        self.spec_cols(),
                        free_cols(red, self.spec_cols())[k],
                        (#[trigger] vs@[k])@,
                    )
                &&& forall|k: int|
                    0 <= k < vs@.len() ==> basis_vector_exact(
                        red,
                        self.spec_cols(),
                        free_cols(red, self.spec_cols())[k],
                        (#[trigger] vs@[k])@,
                    )
                &&& forall|k: int, row: int|
                    0 <= k < vs@.len() && 0 <= row < red.len() ==> dot_n(
                        #[trigger] red[row],
                        (#[trigger] vs@[k])@,
                    ) == 0
            }),
    {
        let reduced = match self.eliminate() {
            Ok(m) => m,
            Err(_) => {
                return Err(RankError::NumericOverflow);
            },
        };
        proof {
            lemma_reduced_distinct_pivots(reduced@);
        }
        let wrapped = ReducedRowEchelon { mat: reduced };
        let basis = wrapped.null_space_basis();
        proof {
            lemma_free_cols_props(reduced@, self.spec_cols());
            assert forall|k: int, row: int|
                0 <= k < basis@.len() && 0 <= row < reduced@.len() implies dot_n(
                #[trigger] reduced@[row],
                (#[trigger] basis@[k])@,
            ) == 0 by {
                let fc = free_cols(reduced@, self.spec_cols())[k];
                lemma_basis_in_kernel(
                    reduced@,
                    self.spec_cols(),
                    fc,
                    basis@[k]@,
                    row,
                );
            }
        }
        Ok(basis)
    }

    /// Re-tags the matrix as column-stochastic exactly when every
    /// column passes the probability validation.
    pub fn stochastic_matrix(&self) -> (r: Result<Stochastic, RankError>)
        requires
            self.wf(),
        ensures
            r matches Ok(s) ==> {
                &&& s@ == self@
                &&& s.spec_cols() == self.spec_cols()
                &&& is_col_stochastic(self@, self.spec_cols())
            },
            (forall|c: int| 0 <= c < self.spec_cols() ==> sum_fits(#[trigger] col_seq(self@, c)))
                && is_col_stochastic(self@, self.spec_cols()) ==> r is Ok,
            r matches Err(e) ==> {
                &&& (e == RankError::NotColumnStochastic || e == RankError::NumericOverflow)
                &&& (e == RankError::NotColumnStochastic ==> !is_col_stochastic(
                    self@,
                    self.spec_cols(),
                ))
                &&& (e == RankError::NumericOverflow ==> exists|c: int|
                    0 <= c < self.spec_cols() && !sum_fits(#[trigger] col_seq(self@, c)))
            },
    {
        let cols = self.column_vectors();
        let mut c: usize = 0;
        while c < cols.len()
            invariant
                0 <= c <= self.spec_cols(),
                self.wf(),
                cols@.len() == self.spec_cols(),
                forall|p: int|
                    0 <= p < self.spec_cols() ==> (#[trigger] cols@[p])@ == col_seq(self@, p),
                forall|p: int| 0 <= p < c ==> is_prob_dist(#[trigger] col_seq(self@, p)),
            decreases self.spec_cols() - c,
        {
            proof {
                assert(vec_wf(cols@[c as int]@)) by {
                    assert forall|t: int|
                        0 <= t < col_seq(self@, c as int).len() implies (#[trigger] col_seq(
                        self@,
                        c as int,
                    )[t]).wf() by {
                    }
                }
            }
            match cols[c].probability_vector() {
                Ok(_) => {
                    c = c + 1;
                },
                Err(RankError::NotAProbabilityDistribution) => {
                    return Err(RankError::NotColumnStochastic);
                },
                Err(_) => {
                    return Err(RankError::NumericOverflow);
                },
            }
        }
        Ok(Stochastic { mat: self.duplicate() })
    }
}

/// The fixed-point check for one row: the exact dot product with `p`
/// fits the machine word and gives back `p`'s entry at that row.
pub open spec fn row_checks(g: Seq<Seq<Rat>>, p: Seq<Rat>, row: int) -> bool {
    dot_fits(g[row], p) && dot_n(g[row], p) * p[row].d() == p[row].n() * dot_d(g[row], p)
}

/// The matrix minus the identity, entry by entry in reduced form.
pub open spec fn shifted_entry(x: Rat, diag: bool) -> Rat {
    if diag {
        norm_rat(x.n() - x.d(), x.d())
    } else {
        norm_rat(x.n(), x.d())
    }
}

/// The grid of the matrix minus the identity.
pub open spec fn shifted_grid(g: Seq<Seq<Rat>>, n: int) -> Seq<Seq<Rat>> {
    Seq::new(n as nat, |i: int| Seq::new(n as nat, |j: int| shifted_entry(g[i][j], i == j)))
}

/// Does every reduced entry of the matrix minus the identity fit the
/// machine word?
pub open spec fn shifted_fits(g: Seq<Seq<Rat>>, n: int) -> bool {
    forall|i: int, j: int|
        0 <= i < n && 0 <= j < n ==> norm_fits(
            if i == j {
                (#[trigger] g[i][j]).n() - g[i][j].d()
            } else {
                g[i][j].n()
            },
            g[i][j].d(),
        )
}

/// The kernel vector scaled by the reciprocal of its reduced sum,
/// entry by entry in reduced form.
pub open spec fn normalized_candidate(v: Seq<Rat>) -> Seq<Rat> {
    let s = sum_state(v, v.len() as int);
    let rcp = norm_rat(s.1, s.0);
    Seq::new(v.len(), |i: int| norm_rat(mul_n(v[i], rcp), mul_d(v[i], rcp)))
}

/// Does the kernel vector `v` pass the whole candidate pipeline for
/// the matrix `g`: its checked sum fits and is nonzero, the reciprocal
/// and every scaled entry fit, and the normalized vector validates as
/// a probability distribution that the matrix maps exactly to itself?
pub open spec fn candidate_accepted(g: Seq<Seq<Rat>>, v: Seq<Rat>) -> bool {
    let s = sum_state(v, v.len() as int);
    let rcp = norm_rat(s.1, s.0);
    let cand = normalized_candidate(v);
    &&& sum_fits(v)
    &&& s.0 != 0
    &&& norm_fits(s.1, s.0)
    &&& (forall|i: int|
        0 <= i < v.len() ==> norm_fits(mul_n(#[trigger] v[i], rcp), mul_d(v[i], rcp)))
    &&& sum_fits(cand)
    &&& is_prob_dist(cand)
    &&& (forall|row: int| 0 <= row < g.len() ==> #[trigger] row_checks(g, cand, row))
}

/// A matrix validated to be column-stochastic: every column is a
/// probability distribution.
#[derive(Clone, Debug, PartialEq, Eq)]
pub struct Stochastic {
    mat: Matrix,
}

impl View for Stochastic {
    type V = Seq<Seq<Rat>>;

    closed spec fn view(&self) -> Seq<Seq<Rat>> {
        self.mat@
    }
}

impl Stochastic {
    /// The declared number of columns.
    pub closed spec fn spec_cols(self) -> int {
        self.mat.spec_cols()
    }

    /// Shape is well-formed and every column is a probability
    /// distribution.
    pub open spec fn wf(self) -> bool {
        grid_wf(self@, self.spec_cols()) && is_col_stochastic(self@, self.spec_cols())
    }

    /// The number of rows.
    pub fn rows(&self) -> (r: usize)
        ensures
            r == self@.len(),
    {
        self.mat.rows()
    }

    /// The number of columns.
    pub fn cols(&self) -> (r: usize)
        ensures
            r == self.spec_cols(),
    {
        self.mat.cols()
    }

    /// The entry in row `r`, column `c`.
    pub fn get(&self, r: usize, c: usize) -> (v: Rat)
        requires
            r < self@.len(),
            c < self@[r as int].len(),
        ensures
            v == self@[r as int][c as int],
    {
        self.mat.get(r, c)
    }

    /// The same entries as a general matrix.
    pub fn general(&self) -> (r: Matrix)
        ensures
            r@ == self@,
            r.spec_cols() == self.spec_cols(),
    {
        self.mat.duplicate()
    }

    /// Does `p` satisfy the fixed-point equation of this matrix?  A
    /// positive answer is verified: it proves the stationarity of `p`.
    fn is_steady_check(&self, p: &Probability) -> (r: bool)
        requires
            self.wf(),
            self@.len() == self.spec_cols(),
            vec_wf(p@),
            p@.len() == self@.len(),
        ensures
            r == (forall|row: int| 0 <= row < self@.len() ==> #[trigger] row_checks(self@, p@, row)),
            r ==> is_fixed_point(self@, p@),
    {
        let pgen = p.general();
        let mut i: usize = 0;
        while i < self.mat.rows_vec.len()
            invariant
                0 <= i <= self@.len(),
                self.wf(),
                self@.len() == self.mat.rows_vec@.len(),
                self@.len() == self.spec_cols(),
                vec_wf(p@),
                pgen@ == p@,
                p@.len() == self@.len(),
                forall|t: int| 0 <= t < i ==> #[trigger] row_checks(self@, p@, t),
                forall|t: int|
                    0 <= t < i ==> dot_n(#[trigger] self@[t], p@) * p@[t].d() == p@[t].n() * dot_d(
                        self@[t],
                        p@,
                    ),
            decreases self@.len() - i,
        {
            let row = self.mat.get_row(i);
            proof {
                lemma_mat_index(self.mat, i as int);
                assert(vec_wf(row@));
            }
            match row.dot(&pgen) {
                None => {
                    proof {
                        assert(!row_checks(self@, p@, i as int));
                    }
                    return false;
                },
                Some(dv) => {
                    let pi = pgen.get(i);
                    if !dv.same_value(&pi) {
                        proof {
                            if dot_n(self@[i as int], p@) * p@[i as int].d() == p@[i as int].n()
                                * dot_d(self@[i as int], p@) {
                                lemma_frac_to_frac(
                                    dv,
                                    dot_n(self@[i as int], p@),
                                    dot_d(self@[i as int], p@),
                                    pi.n(),
                                    pi.d(),
                                );
                            }
                            assert(!row_checks(self@, p@, i as int));
                        }
                        return false;
                    }
                    proof {
                        lemma_frac_chain(
                            dv,
                            dot_n(self@[i as int], p@),
                            dot_d(self@[i as int], p@),
                            pi.n(),
                            pi.d(),
                        );
                        assert(row_checks(self@, p@, i as int));
                    }
                    i = i + 1;
                },
            }
        }
        true
    }

    /// Tries to turn one kernel-basis vector into a verified stationary
    /// distribution: normalize it to sum one, validate the probability
    /// invariant, and check the fixed-point equation exactly.
    fn try_candidate(&self, v: &Vector) -> (r: Option<Probability>)
        requires
            self.wf(),
            self@.len() == self.spec_cols(),
            v.wf(),
            v@.len() == self@.len(),
        ensures
            r matches Some(p) ==> {
                &&& p@.len() == self@.len()
                &&& vec_wf(p@)
                &&& is_prob_dist(p@)
                &&& is_fixed_point(self@, p@)
            },
            r is None ==> !candidate_accepted(self@, v@),
    {
        let ghost spair = sum_state(v@, v@.len() as int);
        let ghost rcp = norm_rat(spair.1, spair.0);
        match v.sum() {
            None => {
                proof {
                    assert(!candidate_accepted(self@, v@));
                }
                None
            },
            Some(s) => {
                if s.is_zero() {
                    proof {
                        assert(spair.0 == 0);
                        assert(!candidate_accepted(self@, v@));
                    }
                    None
                } else {
                    let one = Rat::one();
                    match one.checked_div(&s) {
                        None => {
                            proof {
                                assert(1 * s.d() == spair.1 && 1 * s.n() == spair.0);
                                assert(!norm_fits(spair.1, spair.0));
                                assert(!candidate_accepted(self@, v@));
                            }
                            None
                        },
                        Some(inv) => {
                            proof {
                                assert(1 * s.d() == spair.1 && 1 * s.n() == spair.0);
                                assert(inv == rcp);
                            }
                            match v.scalar_multiply(&inv) {
                                Err(_) => {
                                    proof {
                                        assert(!(forall|i: int|
                                            0 <= i < v@.len() ==> norm_fits(
                                                mul_n(#[trigger] v@[i], rcp),
                                                mul_d(v@[i], rcp),
                                            )));
                                        assert(!candidate_accepted(self@, v@));
                                    }
                                    None
                                },
                                Ok(cand) => {
                                    proof {
                                        assert(cand@ =~= normalized_candidate(v@));
                                    }
                                    match cand.probability_vector() {
                                        Err(_) => {
                                            proof {
                                                assert(!(sum_fits(normalized_candidate(v@))
                                                    && is_prob_dist(normalized_candidate(v@))));
                                                assert(!candidate_accepted(self@, v@));
                                            }
                                            None
                                        },
                                        Ok(p) => {
                                            if self.is_steady_check(&p) {
                                                Some(p)
                                            } else {
                                                proof {
                                                    assert(p@ == normalized_candidate(v@));
                                                    assert(!(forall|row: int|
                                                        0 <= row < self@.len()
                                                            ==> #[trigger] row_checks(
                                                            self@,
                                                            normalized_candidate(v@),
                                                            row,
                                                        )));
                                                    assert(!candidate_accepted(self@, v@));
                                                }
                                                None
                                            }
                                        },
                                    }
                                },
                            }
                        },
                    }
                }
            },
        }
    }

    /// The steady-state distribution of the transition matrix: a
    /// probability vector that the matrix maps exactly to itself.  The
    /// candidates come from the kernel basis of the matrix minus the
    /// identity; every returned distribution has been checked exactly
    /// against the fixed-point equation, and a failure certifies its
    /// cause: the shifted matrix or its reduction overflowed, or every
    /// kernel-basis candidate failed the acceptance pipeline.
    pub fn steady_state_solution(&self) -> (r: Result<Probability, RankError>)
        requires
            self.wf(),
            self@.len() == self.spec_cols(),
        ensures
            r matches Ok(p) ==> {
                &&& p@.len() == self@.len()
                &&& vec_wf(p@)
                &&& is_prob_dist(p@)
                &&& is_fixed_point(self@, p@)
            },
            r is Err ==> r == Err::<Probability, RankError>(RankError::ConvergenceFailure) || r
                == Err::<Probability, RankError>(RankError::NumericOverflow),
            r is Err ==> ({
                let n = self@.len() as int;
                let sh = shifted_grid(self@, n);
                ||| !shifted_fits(self@, n)
                ||| gauss_jordan(sh) is None
                ||| (forall|k: int, bv: Seq<Rat>|
                    0 <= k < free_cols(gauss_jordan(sh)->Some_0, n).len()
                        && #[trigger] basis_vector_exact(
                        gauss_jordan(sh)->Some_0,
                        n,
                        free_cols(gauss_jordan(sh)->Some_0, n)[k],
                        bv,
                    ) ==> !candidate_accepted(self@, bv))
            }),
    {
        let ghost nn = self@.len() as int;
        let ghost sh = shifted_grid(self@, nn);
        let g = self.general();
        let n = g.rows();
        let ident = Matrix::identity(n);
        let identg = ident.general();
        let a = match g.matrix_subtraction(&identg) {
            Ok(a) => a,
            Err(_) => {
                proof {
                    assert(!shifted_fits(self@, nn)) by {
                        crate::rational::lemma_norm_unit_forms();
                        if forall|i: int, j: int|
                            0 <= i < nn && 0 <= j < nn ==> norm_fits(
                                if i == j {
                                    (#[trigger] self@[i][j]).n() - self@[i][j].d()
                                } else {
                                    self@[i][j].n()
                                },
                                self@[i][j].d(),
                            ) {
                            assert forall|i: int, j: int|
                                0 <= i < g@.len() && 0 <= j < g.spec_cols() implies norm_fits(
                                (#[trigger] g@[i][j]).n() * identg@[i][j].d() - identg@[i][j].n()
                                    * g@[i][j].d(),
                                add_d(g@[i][j], identg@[i][j]),
                            ) by {
                                crate::rational::lemma_norm_unit_forms();
                                assert(identg@[i][j] == (if i == j {
                                    norm_rat(1, 1)
                                } else {
                                    norm_rat(0, 1)
                                }));
                                assert(identg@[i][j].d() == 1);
                                assert(g@[i][j] == self@[i][j]);
                                assert(g@[i][j].n() * identg@[i][j].d() - identg@[i][j].n()
                                    * g@[i][j].d() == (if i == j {
                                    self@[i][j].n() - self@[i][j].d()
                                } else {
                                    self@[i][j].n()
                                }));
                                assert(add_d(g@[i][j], identg@[i][j]) == self@[i][j].d());
                            }
                            assert(false);
                        }
                    }
                }
                return Err(RankError::NumericOverflow);
            },
        };
        proof {
            crate::rational::lemma_norm_unit_forms();
            assert forall|i: int| 0 <= i < nn implies (#[trigger] a@[i]) =~= sh[i] by {
                assert forall|j: int| 0 <= j < nn implies (#[trigger] a@[i][j]) == sh[i][j] by {
                    crate::rational::lemma_norm_unit_forms();
                    assert(identg@[i][j] == (if i == j {
                        norm_rat(1, 1)
                    } else {
                        norm_rat(0, 1)
                    }));
                    assert(identg@[i][j].d() == 1);
                    assert(g@[i][j] == self@[i][j]);
                    assert(a@[i][j] == norm_rat(
                        g@[i][j].n() * identg@[i][j].d() - identg@[i][j].n() * g@[i][j].d(),
                        add_d(g@[i][j], identg@[i][j]),
                    ));
                    assert(g@[i][j].n() * identg@[i][j].d() - identg@[i][j].n() * g@[i][j].d()
                        == (if i == j {
                        self@[i][j].n() - self@[i][j].d()
                    } else {
                        self@[i][j].n()
                    }));
                    assert(add_d(g@[i][j], identg@[i][j]) == self@[i][j].d());
                    assert(sh[i][j] == shifted_entry(self@[i][j], i == j));
                }
            }
            assert(a@ =~= sh);
        }
        let basis = match a.null_space() {
            Ok(b) => b,
            Err(_) => {
                proof {
                    assert(gauss_jordan(sh) is None);
                }
                return Err(RankError::NumericOverflow);
            },
        };
        let ghost red = gauss_jordan(sh)->Some_0;
        let mut k: usize = 0;
        while k < basis.len()
            invariant
                0 <= k <= basis@.len(),
                self.wf(),
                self@.len() == self.spec_cols(),
                nn == self@.len() as int,
                sh == shifted_grid(self@, nn),
                gauss_jordan(sh) == Some(red),
                a.spec_cols() == self@.len(),
                basis@.len() == free_cols(red, nn).len(),
                forall|t: int|
                    0 <= t < basis@.len() ==> (#[trigger] basis@[t])@.len() == a.spec_cols()
                        && vec_wf(basis@[t]@),
                forall|t: int|
                    0 <= t < basis@.len() ==> basis_vector_exact(
                        red,
                        nn,
                        free_cols(red, nn)[t],
                        (#[trigger] basis@[t])@,
                    ),
                forall|t: int|
                    0 <= t < k ==> !candidate_accepted(self@, (#[trigger] basis@[t])@),
            decreases basis@.len() - k,
        {
            match self.try_candidate(&basis[k]) {
                Some(p) => {
                    return Ok(p);
                },
                None => {
                    k = k + 1;
                },
            }
        }
        proof {
            lemma_free_cols_props(red, nn);
            assert forall|k2: int, bv: Seq<Rat>|
                0 <= k2 < free_cols(red, nn).len() && #[trigger] basis_vector_exact(
                red,
                nn,
                free_cols(red, nn)[k2],
                bv,
            ) implies !candidate_accepted(self@, bv) by {
                let f = free_cols(red, nn)[k2];
                let bk = basis@[k2]@;
                assert(basis_vector_exact(red, nn, f, bk));
                assert forall|c: int| 0 <= c < nn implies bv[c] == bk[c] by {
                    if c == f {
                    } else if is_pivot_col(red, c) {
                        let i = choose|i: int| 0 <= i < red.len() && #[trigger] is_pivot(red[i], c);
                        assert(bv[c] == spec_neg(red[i][f]));
                        assert(bk[c] == spec_neg(red[i][f]));
                    } else {
                    }
                }
                assert(bv =~= bk);
            }
        }
        Err(RankError::ConvergenceFailure)
    }
}

/// Does some row of the grid have its first nonzero entry in column
/// `c`, among the first `upto` rows?
pub open spec fn is_pivot_col_upto(g: Seq<Seq<Rat>>, c: int, upto: int) -> bool {
    exists|i: int| 0 <= i < upto && #[trigger] is_pivot(g[i], c)
}

/// Does some row of the grid have its first nonzero entry in column
/// `c`?
pub open spec fn is_pivot_col(g: Seq<Seq<Rat>>, c: int) -> bool {
    is_pivot_col_upto(g, c, g.len() as int)
}

/// The columns of `0 .. c` in which no row has its pivot, in
/// ascending order.
pub open spec fn free_cols(g: Seq<Seq<Rat>>, c: int) -> Seq<int>
    decreases c,
{
    if c <= 0 {
        Seq::empty()
    } else if is_pivot_col(g, c - 1) {
        free_cols(g, c - 1)
    } else {
        free_cols(g, c - 1).push(c - 1)
    }
}

/// No two rows share a pivot column.
pub open spec fn distinct_pivots(g: Seq<Seq<Rat>>) -> bool {
    forall|i1: int, i2: int, p: int|
        #![trigger is_pivot(g[i1], p), is_pivot(g[i2], p)]
        0 <= i1 < g.len() && 0 <= i2 < g.len() && i1 != i2 && is_pivot(g[i1], p) ==> !is_pivot(
            g[i2],
            p,
        )
}

/// The kernel-basis vector for free column `f`: one at the free
/// position, the negated entry of each pivot row's column `f` at that
/// row's pivot position, and zero in every other free column.
pub open spec fn basis_vector_shape(g: Seq<Seq<Rat>>, ncols: int, f: int, v: Seq<Rat>) -> bool {
    &&& v.len() == ncols
    &&& 0 <= f < ncols
    &&& v[f].n() == v[f].d()
    &&& forall|i: int, p: int|
        0 <= i < g.len() && #[trigger] is_pivot(g[i], p) ==> v[p].n() == -g[i][f].n() && v[p].d()
            == g[i][f].d()
    &&& forall|c: int|
        0 <= c < ncols && c != f && !is_pivot_col(g, c) ==> (#[trigger] v[c]).n() == 0
}

/// A grid with reduced pivots gives each pivot column to one row
/// alone: the column is zero in every other row.
pub proof fn lemma_reduced_distinct_pivots(g: Seq<Seq<Rat>>)
    requires
        reduced_pivots(g),
    ensures
        distinct_pivots(g),
{
    assert forall|i1: int, i2: int, p: int|
        #![trigger is_pivot(g[i1], p), is_pivot(g[i2], p)]
        0 <= i1 < g.len() && 0 <= i2 < g.len() && i1 != i2 && is_pivot(g[i1], p) implies !is_pivot(
        g[i2],
        p,
    ) by {
        if is_pivot(g[i2], p) {
            assert(g[i2][p].n() == 0);
        }
    }
}

/// The identity grid is in reduced row-echelon form.
pub proof fn lemma_identity_is_rref(g: Seq<Seq<Rat>>, n: int)
    requires
        is_identity_grid(g, n),
    ensures
        is_rref_grid(g),
{
    assert forall|i: int, p: int|
        0 <= i < g.len() && #[trigger] is_pivot(g[i], p) implies p == i by {
        assert(g[i][p].n() != 0);
        if p < i {
        } else if p > i {
        }
        if i < p {
            assert(g[i][i].n() == g[i][i].d());
            assert(g[i][i].wf());
            assert(g[i][i].n() != 0);
        }
    }
    assert forall|i: int, k: int|
        0 <= i < k < g.len() && row_zero(#[trigger] g[i]) implies row_zero(#[trigger] g[k]) by {
        assert(g[i][i].n() == g[i][i].d());
        assert(g[i][i].wf());
        assert(g[i][i].n() == 0);
        assert(false);
    }
}

/// Free columns sit in range and carry no pivot.
proof fn lemma_free_cols_props(g: Seq<Seq<Rat>>, c: int)
    ensures
        forall|t: int|
            0 <= t < free_cols(g, c).len() ==> 0 <= #[trigger] free_cols(g, c)[t] < c
                && !is_pivot_col(g, free_cols(g, c)[t]),
    decreases c,
{
    if c > 0 {
        lemma_free_cols_props(g, c - 1);
        assert forall|t: int|
            0 <= t < free_cols(g, c).len() implies 0 <= #[trigger] free_cols(g, c)[t] < c
            && !is_pivot_col(g, free_cols(g, c)[t]) by {
            if !is_pivot_col(g, c - 1) && t == free_cols(g, c - 1).len() {
            } else {
                assert(free_cols(g, c)[t] == free_cols(g, c - 1)[t]);
            }
        }
    }
}

/// The exact dot product of an all-zero row with any equally long
/// vector is zero, prefix by prefix.
proof fn lemma_dot_zero_row(r: Seq<Rat>, v: Seq<Rat>, c: int)
    requires
        r.len() == v.len(),
        row_zero(r),
        0 <= c <= r.len(),
    ensures
        dot_n(r.take(c), v.take(c)) == 0,
    decreases c,
{
    if c > 0 {
        lemma_dot_zero_row(r, v, c - 1);
        assert(r.take(c).drop_last() =~= r.take(c - 1));
        assert(v.take(c).drop_last() =~= v.take(c - 1));
        assert(r.take(c).last() == r[c - 1]);
        assert(v.take(c).last() == v[c - 1]);
        assert(mul_n(r[c - 1], v[c - 1]) == 0) by (nonlinear_arith)
            requires
                r[c - 1].n() == 0,
        {
        }
        assert(dot_n(r.take(c), v.take(c)) == 0) by (nonlinear_arith)
            requires
                dot_n(r.take(c).drop_last(), v.take(c).drop_last()) == 0,
                mul_n(r.take(c).last(), v.take(c).last()) == 0,
                dot_n(r.take(c), v.take(c)) == dot_n(
                    r.take(c).drop_last(),
                    v.take(c).drop_last(),
                ) * mul_d(r.take(c).last(), v.take(c).last()) + mul_n(
                    r.take(c).last(),
                    v.take(c).last(),
                ) * dot_d(r.take(c).drop_last(), v.take(c).drop_last()),
        {
        }
    }
}

/// The exact dot product of a pivot row of a reduced grid with the
/// kernel-basis vector of free column `f`, prefix by prefix: zero
/// until the free or pivot column enters, the entry of column `f`
/// after one of them, and zero again after both.
proof fn lemma_dot_basis_pivot_row(
    red: Seq<Seq<Rat>>,
    ncols: int,
    f: int,
    v: Seq<Rat>,
    row: int,
    p: int,
    c: int,
)
    requires
        reduced_pivots(red),
        forall|i: int| 0 <= i < red.len() ==> (#[trigger] red[i]).len() == ncols,
        forall|i: int, j: int|
            0 <= i < red.len() && 0 <= j < ncols ==> (#[trigger] red[i][j]).wf(),
        0 <= row < red.len(),
        0 <= f < ncols,
        !is_pivot_col(red, f),
        is_pivot(red[row], p),
        basis_vector_exact(red, ncols, f, v),
        vec_wf(v),
        0 <= c <= ncols,
    ensures
        dot_d(red[row].take(c), v.take(c)) > 0,
        f < c && p < c ==> dot_n(red[row].take(c), v.take(c)) == 0,
        f < c && !(p < c) ==> dot_n(red[row].take(c), v.take(c)) * red[row][f].d()
            == red[row][f].n() * dot_d(red[row].take(c), v.take(c)),
        !(f < c) && p < c ==> dot_n(red[row].take(c), v.take(c)) * red[row][f].d() == (-red[row][
            f
        ].n()) * dot_d(red[row].take(c), v.take(c)),
        !(f < c) && !(p < c) ==> dot_n(red[row].take(c), v.take(c)) == 0,
    decreases c,
{
    let r = red[row];
    let rf = r[f];
    if c == 0 {
        assert(r.take(0) =~= Seq::<Rat>::empty());
        assert(v.take(0) =~= Seq::<Rat>::empty());
    } else {
        lemma_dot_basis_pivot_row(red, ncols, f, v, row, p, c - 1);
        assert(r.take(c).drop_last() =~= r.take(c - 1));
        assert(v.take(c).drop_last() =~= v.take(c - 1));
        assert(r.take(c).last() == r[c - 1]);
        assert(v.take(c).last() == v[c - 1]);
        let dn0 = dot_n(r.take(c - 1), v.take(c - 1));
        let dd0 = dot_d(r.take(c - 1), v.take(c - 1));
        let dn1 = dot_n(r.take(c), v.take(c));
        let dd1 = dot_d(r.take(c), v.take(c));
        let mn = mul_n(r[c - 1], v[c - 1]);
        let md = mul_d(r[c - 1], v[c - 1]);
        assert(dn1 == dn0 * md + mn * dd0);
        assert(dd1 == dd0 * md);
        lemma_pos_prod(r[c - 1].d(), v[c - 1].d());
        lemma_pos_prod(dd0, md);
        crate::rational::lemma_norm_unit_forms();
        if c - 1 == f {
            // the free column contributes the entry of column f
            assert(v[f] == norm_rat(1, 1));
            assert(mn == rf.n() * 1 && md == rf.d() * 1);
            if p < c {
                // the pivot column came earlier: the two contributions
                // cancel
                assert(dn0 * rf.d() == (-rf.n()) * dd0);
                assert(dn1 == 0) by (nonlinear_arith)
                    requires
                        dn1 == dn0 * (rf.d() * 1) + (rf.n() * 1) * dd0,
                        dn0 * rf.d() == (-rf.n()) * dd0,
                {
                }
            } else {
                assert(dn0 == 0);
                assert(dn1 * rf.d() == rf.n() * dd1) by (nonlinear_arith)
                    requires
                        dn1 == dn0 * (rf.d() * 1) + (rf.n() * 1) * dd0,
                        dn0 == 0,
                        dd1 == dd0 * (rf.d() * 1),
                {
                }
            }
        } else if c - 1 == p {
            // the pivot column contributes the negated entry of column
            // f, weighted by the leading one
            let pv = r[p];
            assert(pv.n() == pv.d());
            assert(v[p] == spec_neg(rf));
            crate::rational::lemma_spec_neg(rf);
            assert(mn == pv.n() * (-rf.n()) && md == pv.d() * rf.d());
            if f < c {
                assert(dn0 * rf.d() == rf.n() * dd0);
                assert(dn1 == 0) by (nonlinear_arith)
                    requires
                        dn1 == dn0 * (pv.d() * rf.d()) + (pv.n() * (-rf.n())) * dd0,
                        dn0 * rf.d() == rf.n() * dd0,
                        pv.n() == pv.d(),
                {
                }
            } else {
                assert(dn0 == 0);
                assert(dn1 * rf.d() == (-rf.n()) * dd1) by (nonlinear_arith)
                    requires
                        dn1 == dn0 * (pv.d() * rf.d()) + (pv.n() * (-rf.n())) * dd0,
                        dn0 == 0,
                        dd1 == dd0 * (pv.d() * rf.d()),
                        pv.n() == pv.d(),
                        rf.d() > 0,
                        pv.d() > 0,
                        dd0 > 0,
                {
                }
            }
        } else {
            // every other column contributes nothing: either the row's
            // entry is zero (another row's pivot column) or the basis
            // vector's is (a free column other than f)
            if is_pivot_col(red, c - 1) {
                let w = choose|i: int| 0 <= i < red.len() && #[trigger] is_pivot(red[i], c - 1);
                if w == row {
                    lemma_pivot_unique(r, p, c - 1);
                    assert(false);
                }
                assert(r[c - 1].n() == 0);
                assert(mn == 0) by (nonlinear_arith)
                    requires
                        mn == r[c - 1].n() * v[c - 1].n(),
                        r[c - 1].n() == 0,
                {
                }
            } else {
                assert(v[c - 1] == norm_rat(0, 1));
                assert(mn == 0) by (nonlinear_arith)
                    requires
                        mn == r[c - 1].n() * v[c - 1].n(),
                        v[c - 1].n() == 0,
                {
                }
            }
            assert(dn1 == dn0 * md) by (nonlinear_arith)
                requires
                    dn1 == dn0 * md + mn * dd0,
                    mn == 0,
            {
            }
            if f < c && p < c {
                assert(dn1 == 0) by (nonlinear_arith)
                    requires
                        dn1 == dn0 * md,
                        dn0 == 0,
                {
                }
            } else if f < c {
                assert(dn1 * rf.d() == rf.n() * dd1) by (nonlinear_arith)
                    requires
                        dn1 == dn0 * md,
                        dd1 == dd0 * md,
                        dn0 * rf.d() == rf.n() * dd0,
                {
                }
            } else if p < c {
                assert(dn1 * rf.d() == (-rf.n()) * dd1) by (nonlinear_arith)
                    requires
                        dn1 == dn0 * md,
                        dd1 == dd0 * md,
                        dn0 * rf.d() == (-rf.n()) * dd0,
                {
                }
            } else {
                assert(dn1 == 0) by (nonlinear_arith)
                    requires
                        dn1 == dn0 * md,
                        dn0 == 0,
                {
                }
            }
        }
    }
}

/// A nonzero row of the grid has a pivot.
proof fn lemma_row_has_pivot(row: Seq<Rat>, k: int)
    requires
        0 <= k <= row.len(),
        forall|j: int| 0 <= j < k ==> (#[trigger] row[j]).n() == 0,
    ensures
        first_nz(row, k) matches Some(p) ==> is_pivot(row, p),
        first_nz(row, k) is None ==> row_zero(row),
    decreases row.len() - k,
{
    if k < row.len() {
        if row[k].n() != 0 {
        } else {
            lemma_row_has_pivot(row, k + 1);
        }
    }
}

/// Every kernel-basis vector has an exact dot product of zero with
/// every row of the reduced grid it was read from.
proof fn lemma_basis_in_kernel(red: Seq<Seq<Rat>>, ncols: int, f: int, v: Seq<Rat>, row: int)
    requires
        reduced_pivots(red),
        forall|i: int| 0 <= i < red.len() ==> (#[trigger] red[i]).len() == ncols,
        forall|i: int, j: int|
            0 <= i < red.len() && 0 <= j < ncols ==> (#[trigger] red[i][j]).wf(),
        0 <= row < red.len(),
        0 <= f < ncols,
        !is_pivot_col(red, f),
        basis_vector_exact(red, ncols, f, v),
        vec_wf(v),
    ensures
        dot_n(red[row], v) == 0,
{
    let r = red[row];
    lemma_row_has_pivot(r, 0);
    assert(r.take(ncols) =~= r);
    assert(v.take(ncols) =~= v);
    match first_nz(r, 0) {
        Some(p) => {
            assert(is_pivot(r, p));
            if p == f {
                assert(is_pivot_col(red, f));
                assert(false);
            }
            lemma_dot_basis_pivot_row(red, ncols, f, v, row, p, ncols);
        },
        None => {
            lemma_dot_zero_row(r, v, ncols);
        },
    }
}

/// The kernel-basis vector for free column `f`, entry by entry: the
/// reduced one at the free position, the reduced negation of each
/// pivot row's entry of column `f` at that row's pivot position, and
/// the reduced zero at every other free column.
pub open spec fn basis_vector_exact(red: Seq<Seq<Rat>>, ncols: int, f: int, v: Seq<Rat>) -> bool {
    &&& v.len() == ncols
    &&& 0 <= f < ncols
    &&& v[f] == norm_rat(1, 1)
    &&& forall|i: int, p: int|
        0 <= i < red.len() && #[trigger] is_pivot(red[i], p) ==> v[p] == spec_neg(red[i][f])
    &&& forall|c: int|
        0 <= c < ncols && c != f && !is_pivot_col(red, c) ==> (#[trigger] v[c]) == norm_rat(0, 1)
}

/// A row has at most one pivot position.
proof fn lemma_pivot_unique(row: Seq<Rat>, p1: int, p2: int)
    requires
        is_pivot(row, p1),
        is_pivot(row, p2),
    ensures
        p1 == p2,
{
    if p1 < p2 {
        assert(row[p1].n() == 0);
    } else if p2 < p1 {
        assert(row[p2].n() == 0);
    }
}

impl ReducedRowEchelon {
    /// The basis of the kernel, one vector per free column: a one in
    /// the free position and, for every pivot row, the negated entry of
    /// that row's free column at its pivot position.  When no two rows
    /// share a pivot (always the case for a properly reduced matrix)
    /// the entries are pinned exactly.
    pub fn null_space_basis(&self) -> (r: Vec<Vector>)
        requires
            self.wf(),
        ensures
            r@.len() == free_cols(self@, self.spec_cols()).len(),
            forall|k: int|
                0 <= k < r@.len() ==> (#[trigger] r@[k])@.len() == self.spec_cols() && vec_wf(
                    r@[k]@,
                ),
            distinct_pivots(self@) ==> forall|k: int|
                0 <= k < r@.len() ==> basis_vector_shape(
                    self@,
                    self.spec_cols(),
                    free_cols(self@, self.spec_cols())[k],
                    (#[trigger] r@[k])@,
                ),
            distinct_pivots(self@) ==> forall|k: int|
                0 <= k < r@.len() ==> basis_vector_exact(
                    self@,
                    self.spec_cols(),
                    free_cols(self@, self.spec_cols())[k],
                    (#[trigger] r@[k])@,
                ),
    {
        let ghost g = self@;
        let ghost ncols = self.spec_cols();
        let rrows = self.mat.row_vectors();
        let n_rows = rrows.len();
        let n_cols = self.mat.cols();
        let mut free: Vec<bool> = Vec::new();
        let mut c: usize = 0;
        while c < n_cols
            invariant
                0 <= c <= n_cols,
                free@.len() == c,
                forall|q: int| 0 <= q < c ==> (#[trigger] free@[q]) == true,
            decreases n_cols - c,
        {
            free.push(true);
            c = c + 1;
        }
        let mut pivot_cols: Vec<Option<usize>> = Vec::new();
        let mut row_idx: usize = 0;
        while row_idx < n_rows
            invariant
                0 <= row_idx <= n_rows,
                g == self@,
                ncols == self.spec_cols(),
                self.wf(),
                n_rows == g.len(),
                n_cols == ncols,
                rrows@.len() == n_rows,
                forall|p: int| 0 <= p < n_rows ==> (#[trigger] rrows@[p])@ == g[p],
                free@.len() == n_cols,
                pivot_cols@.len() == row_idx,
                forall|i: int|
                    0 <= i < row_idx && (#[trigger] pivot_cols@[i]) is Some ==> (pivot_cols@[i]
                        ->Some_0 as int) < ncols && is_pivot(g[i], pivot_cols@[i]->Some_0 as int),
                forall|i: int, p: int|
                    0 <= i < row_idx && (#[trigger] pivot_cols@[i]) is None ==> !(
                    #[trigger] is_pivot(g[i], p)),
                forall|q: int|
                    0 <= q < n_cols ==> ((#[trigger] free@[q]) == false <==> is_pivot_col_upto(
                        g,
                        q,
                        row_idx as int,
                    )),
            decreases n_rows - row_idx,
        {
            match rrows[row_idx].first_non_zero_term() {
                Some(p) => {
                    proof {
                        assert(is_pivot(g[row_idx as int], p as int));
                        assert forall|q: int|
                            0 <= q < n_cols implies ((#[trigger] free@.update(p as int, false)[q])
                            == false <==> is_pivot_col_upto(g, q, row_idx + 1)) by {
                            if q == p {
                                assert(is_pivot_col_upto(g, q, row_idx + 1));
                            } else {
                                if is_pivot_col_upto(g, q, row_idx + 1) {
                                    let w = choose|i: int|
                                        0 <= i < row_idx + 1 && #[trigger] is_pivot(g[i], q);
                                    if w == row_idx {
                                        lemma_pivot_unique(g[row_idx as int], p as int, q);
                                    }
                                    assert(is_pivot_col_upto(g, q, row_idx as int));
                                }
                                if is_pivot_col_upto(g, q, row_idx as int) {
                                    let w = choose|i: int|
                                        0 <= i < row_idx && #[trigger] is_pivot(g[i], q);
                                    assert(is_pivot_col_upto(g, q, row_idx + 1));
                                }
                            }
                        }
                    }
                    pivot_cols.push(Some(p));
                    free.set(p, false);
                },
                None => {
                    proof {
                        assert forall|q: int|
                            0 <= q < n_cols implies ((#[trigger] free@[q]) == false
                            <==> is_pivot_col_upto(g, q, row_idx + 1)) by {
                            if is_pivot_col_upto(g, q, row_idx + 1) {
                                let w = choose|i: int|
                                    0 <= i < row_idx + 1 && #[trigger] is_pivot(g[i], q);
                                if w == row_idx {
                                    assert(g[w][q].n() != 0);
                                }
                                assert(is_pivot_col_upto(g, q, row_idx as int));
                            }
                            if is_pivot_col_upto(g, q, row_idx as int) {
                                let w = choose|i: int|
                                    0 <= i < row_idx && #[trigger] is_pivot(g[i], q);
                                assert(is_pivot_col_upto(g, q, row_idx + 1));
                            }
                        }
                    }
                    pivot_cols.push(None);
                },
            }
            row_idx = row_idx + 1;
        }
        let mut basis: Vec<Vector> = Vec::new();
        let mut free_idx: usize = 0;
        while free_idx < n_cols
            invariant
                0 <= free_idx <= n_cols,
                g == self@,
                ncols == self.spec_cols(),
                self.wf(),
                n_rows == g.len(),
                n_cols == ncols,
                free@.len() == n_cols,
                pivot_cols@.len() == n_rows,
                forall|i: int|
                    0 <= i < n_rows && (#[trigger] pivot_cols@[i]) is Some ==> (pivot_cols@[i]
                        ->Some_0 as int) < ncols && is_pivot(g[i], pivot_cols@[i]->Some_0 as int),
                forall|i: int, p: int|
                    0 <= i < n_rows && (#[trigger] pivot_cols@[i]) is None ==> !(
                    #[trigger] is_pivot(g[i], p)),
                forall|q: int|
                    0 <= q < n_cols ==> ((#[trigger] free@[q]) == false <==> is_pivot_col(g, q)),
                basis@.len() == free_cols(g, free_idx as int).len(),
                forall|k: int|
                    0 <= k < basis@.len() ==> (#[trigger] basis@[k])@.len() == ncols && vec_wf(
                        basis@[k]@,
                    ),
                distinct_pivots(g) ==> forall|k: int|
                    0 <= k < basis@.len() ==> basis_vector_shape(
                        g,
                        ncols,
                        free_cols(g, free_idx as int)[k],
                        (#[trigger] basis@[k])@,
                    ),
                distinct_pivots(g) ==> forall|k: int|
                    0 <= k < basis@.len() ==> basis_vector_exact(
                        g,
                        ncols,
                        free_cols(g, free_idx as int)[k],
                        (#[trigger] basis@[k])@,
                    ),
            decreases n_cols - free_idx,
        {
            let ghost pre_free = free_cols(g, free_idx as int);
            if free[free_idx] {
                let mut null_vector = Vector::zero_vector(n_cols);
                null_vector.set(free_idx, Rat::one());
                let ghost f = free_idx as int;
                let mut row_i: usize = 0;
                while row_i < n_rows
                    invariant
                        0 <= row_i <= n_rows,
                        g == self@,
                        ncols == self.spec_cols(),
                        self.wf(),
                        n_rows == g.len(),
                        n_cols == ncols,
                        f == free_idx as int,
                        0 <= f < ncols,
                        !is_pivot_col(g, f),
                        pivot_cols@.len() == n_rows,
                        forall|i: int|
                            0 <= i < n_rows && (#[trigger] pivot_cols@[i]) is Some ==> (
                            pivot_cols@[i]->Some_0 as int) < ncols && is_pivot(
                                g[i],
                                pivot_cols@[i]->Some_0 as int,
                            ),
                        forall|i: int, p: int|
                            0 <= i < n_rows && (#[trigger] pivot_cols@[i]) is None ==> !(
                            #[trigger] is_pivot(g[i], p)),
                        null_vector@.len() == ncols,
                        vec_wf(null_vector@),
                        null_vector@[f] == norm_rat(1, 1),
                        null_vector@[f].n() == null_vector@[f].d(),
                        distinct_pivots(g) ==> forall|i2: int, p: int|
                            0 <= i2 < row_i && #[trigger] is_pivot(g[i2], p) ==> null_vector@[p]
                                == spec_neg(g[i2][f]),
                        distinct_pivots(g) ==> forall|i2: int, p: int|
                            0 <= i2 < row_i && #[trigger] is_pivot(g[i2], p) ==> null_vector@[p].n()
                                == -g[i2][f].n() && null_vector@[p].d() == g[i2][f].d(),
                        forall|q: int|
                            0 <= q < ncols && q != f && !is_pivot_col_upto(g, q, row_i as int)
                                ==> (#[trigger] null_vector@[q]) == norm_rat(0, 1),
                        forall|q: int|
                            0 <= q < ncols && q != f && !is_pivot_col_upto(g, q, row_i as int)
                                ==> (#[trigger] null_vector@[q]).n() == 0,
                    decreases n_rows - row_i,
                {
                    match pivot_cols[row_i] {
                        Some(pivot_idx) => {
                            proof {
                                assert(is_pivot(g[row_i as int], pivot_idx as int));
                                assert(is_pivot_col_upto(g, pivot_idx as int, g.len() as int));
                                assert(pivot_idx as int != f);
                            }
                            let entry = self.mat.get(row_i, free_idx);
                            let ghost before = null_vector@;
                            null_vector.set(pivot_idx, entry.neg());
                            proof {
                                if distinct_pivots(g) {
                                    assert forall|i2: int, p: int|
                                        0 <= i2 < row_i + 1 && #[trigger] is_pivot(g[i2], p)
                                        implies null_vector@[p] == spec_neg(g[i2][f]) by {
                                        if i2 < row_i {
                                            if p == pivot_idx as int {
                                                assert(is_pivot(g[row_i as int], p));
                                                assert(false);
                                            }
                                            assert(null_vector@[p] == before[p]);
                                        } else {
                                            lemma_pivot_unique(
                                                g[row_i as int],
                                                p,
                                                pivot_idx as int,
                                            );
                                        }
                                    }
                                    assert forall|i2: int, p: int|
                                        0 <= i2 < row_i + 1 && #[trigger] is_pivot(g[i2], p)
                                        implies null_vector@[p].n() == -g[i2][f].n()
                                        && null_vector@[p].d() == g[i2][f].d() by {
                                        if i2 < row_i {
                                            lemma_pivot_unique(
                                                g[i2],
                                                p,
                                                p,
                                            );
                                            if p == pivot_idx as int {
                                                assert(is_pivot(g[row_i as int], p));
                                                assert(false);
                                            }
                                            assert(null_vector@[p] == before[p]);
                                        } else {
                                            lemma_pivot_unique(
                                                g[row_i as int],
                                                p,
                                                pivot_idx as int,
                                            );
                                        }
                                    }
                                }
                                assert forall|q: int|
                                    0 <= q < ncols && q != f && !is_pivot_col_upto(
                                        g,
                                        q,
                                        row_i + 1,
                                    ) implies (#[trigger] null_vector@[q]) == norm_rat(0, 1)
                                    && null_vector@[q].n() == 0 by {
                                    assert(!is_pivot_col_upto(g, q, row_i as int));
                                    if q == pivot_idx as int {
                                        assert(is_pivot_col_upto(g, q, row_i + 1));
                                    }
                                    assert(null_vector@[q] == before[q]);
                                }
                            }
                        },
                        None => {
                            proof {
                                assert forall|q: int|
                                    0 <= q < ncols && q != f && !is_pivot_col_upto(
                                        g,
                                        q,
                                        row_i + 1,
                                    ) implies (#[trigger] null_vector@[q]) == norm_rat(0, 1)
                                    && null_vector@[q].n() == 0 by {
                                    assert(!is_pivot_col_upto(g, q, row_i as int));
                                }
                            }
                        },
                    }
                    row_i = row_i + 1;
                }
                proof {
                    assert(free_cols(g, free_idx + 1) == pre_free.push(f));
                    assert forall|q: int|
                        0 <= q < ncols && q != f && !is_pivot_col(g, q) implies (
                    #[trigger] null_vector@[q]) == norm_rat(0, 1) && null_vector@[q].n() == 0 by {
                        assert(!is_pivot_col_upto(g, q, n_rows as int));
                    }
                    if distinct_pivots(g) {
                        assert(basis_vector_shape(g, ncols, f, null_vector@));
                        assert(basis_vector_exact(g, ncols, f, null_vector@));
                    }
                }
                basis.push(null_vector);
            } else {
                proof {
                    assert(is_pivot_col(g, free_idx as int));
                    assert(free_cols(g, free_idx + 1) == pre_free);
                }
            }
            free_idx = free_idx + 1;
        }
        basis
    }
}

/// Bounds for row-major indexing: the product of two word-sized
/// dimensions is non-negative.
proof fn lemma_mn_bounds(m: int, n: int)
    requires
        m >= 0,
        n >= 0,
    ensures
        m * n >= 0,
{
    lemma_pos_prod_weak(m, n);
}

proof fn lemma_pos_prod_weak(x: int, y: int)
    requires
        x >= 0,
        y >= 0,
    ensures
        x * y >= 0,
{
    assert(x * y >= 0) by (nonlinear_arith)
        requires
            x >= 0,
            y >= 0,
    {
    }
}

/// A length equals `m * n` exactly when division and remainder by `n`
/// say so.
proof fn lemma_div_exact(len: int, m: int, n: int)
    requires
        n > 0,
        len >= 0,
        m >= 0,
    ensures
        (len / n == m && len % n == 0) <==> len == m * n,
{
    vstd::arithmetic::div_mod::lemma_fundamental_div_mod(len, n);
    assert(m * n == n * m) by (nonlinear_arith) {
    }
    if len / n == m && len % n == 0 {
        assert(len == n * m);
    }
    if len == m * n {
        vstd::arithmetic::div_mod::lemma_mod_multiples_basic(m, n);
        vstd::arithmetic::div_mod::lemma_div_multiples_vanish(m, n);
    }
}

/// The slice for row `i` lies inside the flat data.
proof fn lemma_row_offset(i: int, m: int, n: int)
    requires
        0 <= i < m,
        n >= 0,
    ensures
        i * n + n <= m * n,
        i * n >= 0,
    decreases m,
{
    assert(i * n + n <= m * n && i * n >= 0) by (nonlinear_arith)
        requires
            0 <= i < m,
            n >= 0,
    {
    }
}

} // verus!
