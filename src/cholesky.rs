use vstd::prelude::*;

use crate::scalar::{Scalar, UnitSample};

verus! {

/// Why a matrix operation refused its input.
#[derive(Debug, Clone, Copy, PartialEq, Eq, Structural)]
pub enum MatrixError {
    /// The operands of a product do not share their column count.
    DimensionMismatch,
    /// A factorization was asked of a matrix that is not square.
    NotSquareError,
    /// A diagonal candidate of the factorization was not strictly positive.
    NotPositiveDefiniteError,
}

/// Cell `(r, c)` of a matrix with `n` rows lies before the end of its storage.
proof fn lemma_offset_in_bounds(r: int, c: int, n: int, m: int)
    requires
        0 <= r < n,
        0 <= c < m,
    ensures
        0 <= c * n + r < n * m,
{
    assert(0 <= c * n + r < n * m) by (nonlinear_arith)
        requires
            0 <= r < n,
            0 <= c < m,
    ;
}

/// Two different cells of a matrix with `n` rows have different offsets.
proof fn lemma_offset_distinct(r1: int, c1: int, r2: int, c2: int, n: int)
    requires
        0 <= r1 < n,
        0 <= r2 < n,
        0 <= c1,
        0 <= c2,
        r1 != r2 || c1 != c2,
    ensures
        c1 * n + r1 != c2 * n + r2,
{
    if c1 < c2 {
        assert(c1 * n + r1 < c2 * n + r2) by (nonlinear_arith)
            requires
                0 <= r1 < n,
                0 <= r2,
                c1 < c2,
        ;
    } else if c2 < c1 {
        assert(c2 * n + r2 < c1 * n + r1) by (nonlinear_arith)
            requires
                0 <= r2 < n,
                0 <= r1,
                c2 < c1,
        ;
    }
}

/// A dense matrix stored in column-major order: the element at row `r` and
/// column `c` lives at offset `c * nrows + r` of `values`.
#[derive(Debug, Clone)]
pub struct NaiveMatrix<T> {
    nrows: usize,
    ncols: usize,
    values: Vec<T>,
}

impl<T> NaiveMatrix<T> {
    /// The number of rows.
    pub closed spec fn rows(&self) -> nat {
        self.nrows as nat
    }

    /// The number of columns.
    pub closed spec fn cols(&self) -> nat {
        self.ncols as nat
    }

    /// The backing elements, in column-major order.
    pub closed spec fn elems(&self) -> Seq<T> {
        self.values@
    }

    /// The backing sequence holds exactly one element per cell.
    pub open spec fn wf(&self) -> bool {
        self.elems().len() == self.rows() * self.cols()
    }

    /// Whether `(r, c)` names a cell of the matrix.
    pub open spec fn in_bounds(&self, r: int, c: int) -> bool {
        0 <= r < self.rows() && 0 <= c < self.cols()
    }

    /// The element at row `r` and column `c`.
    pub open spec fn at(&self, r: int, c: int) -> T {
        self.elems()[c * self.rows() + r]
    }

    /// Wraps caller data verbatim; `values` is read in column-major order.
    pub fn from_vec(nrows: usize, ncols: usize, values: Vec<T>) -> (m: NaiveMatrix<T>)
        requires
            values@.len() == nrows * ncols,
        ensures
            m.wf(),
            m.rows() == nrows,
            m.cols() == ncols,
            m.elems() == values@,
    {
        NaiveMatrix { nrows, ncols, values }
    }

    /// `self` has the dimensions of `a` swapped, and holds at `(c, r)` what
    /// `a` holds at `(r, c)`.
    pub open spec fn is_transpose_of(&self, a: &NaiveMatrix<T>) -> bool {
        &&& self.rows() == a.cols()
        &&& self.cols() == a.rows()
        &&& forall|r: int, c: int| a.in_bounds(r, c) ==> #[trigger] self.at(c, r) == a.at(r, c)
    }

    /// The number of rows.
    pub fn nrows(&self) -> (n: usize)
        ensures
            n == self.rows(),
    {
        self.nrows
    }

    /// The number of columns.
    pub fn ncols(&self) -> (n: usize)
        ensures
            n == self.cols(),
    {
        self.ncols
    }

    /// Overwrites the element at `(row, col)` with `v`.
    pub fn set(&mut self, row: usize, col: usize, v: T)
        requires
            old(self).wf(),
            old(self).in_bounds(row as int, col as int),
        ensures
            final(self).wf(),
            final(self).rows() == old(self).rows(),
            final(self).cols() == old(self).cols(),
            final(self).elems() == old(self).elems().update(col * old(self).rows() + row, v),
            forall|r: int, c: int|
                #![trigger final(self).at(r, c)]
                final(self).in_bounds(r, c) ==> final(self).at(r, c) == if r == row && c == col {
                    v
                } else {
                    old(self).at(r, c)
                },
    {
        proof {
            lemma_offset_in_bounds(row as int, col as int, self.nrows as int, self.ncols as int);
        }
        // the length of the storage bounds the offset below usize::MAX
        let _len = self.values.len();
        let i = col * self.nrows + row;
        self.values.set(i, v);
        proof {
            assert forall|r: int, c: int| #[trigger]
                self.in_bounds(r, c) && !(r == row && c == col) implies self.at(r, c) == old(
                self,
            ).at(r, c) by {
                lemma_offset_distinct(r, c, row as int, col as int, self.nrows as int);
                lemma_offset_in_bounds(r, c, self.nrows as int, self.ncols as int);
            }
        }
    }
}

impl<T: Copy> NaiveMatrix<T> {
    /// The element at `(row, col)`.
    pub fn get(&self, row: usize, col: usize) -> (v: T)
        requires
            self.wf(),
            self.in_bounds(row as int, col as int),
        ensures
            v == self.at(row as int, col as int),
    {
        proof {
            lemma_offset_in_bounds(row as int, col as int, self.nrows as int, self.ncols as int);
        }
        // the length of the storage bounds the offset below usize::MAX
        let _len = self.values.len();
        self.values[col * self.nrows + row]
    }

    /// A new matrix with rows and columns exchanged.
    pub fn transpose(&self) -> (t: NaiveMatrix<T>)
        requires
            self.wf(),
        ensures
            t.wf(),
            t.is_transpose_of(self),
    {
        let nr = self.nrows;
        let nc = self.ncols;
        let mut values: Vec<T> = Vec::new();
        let mut c: usize = 0;
        while c < nr
            invariant
                self.wf(),
                nr == self.rows(),
                nc == self.cols(),
                c <= nr,
                values@.len() == c * nc,
                forall|cc: int, rr: int|
                    0 <= cc < c && 0 <= rr < nc ==> #[trigger] values@[cc * nc + rr] == self.at(
                        cc,
                        rr,
                    ),
            decreases nr - c,
        {
            let mut r: usize = 0;
            while r < nc
                invariant
                    self.wf(),
                    nr == self.rows(),
                    nc == self.cols(),
                    c < nr,
                    r <= nc,
                    values@.len() == c * nc + r,
                    forall|cc: int, rr: int|
                        0 <= cc < c && 0 <= rr < nc ==> #[trigger] values@[cc * nc + rr]
                            == self.at(cc, rr),
                    forall|rr: int| 0 <= rr < r ==> #[trigger] values@[c * nc + rr] == self.at(c as int, rr),
                decreases nc - r,
            {
                let x = self.get(c, r);
                let ghost before = values@;
                values.push(x);
                proof {
                    assert forall|cc: int, rr: int|
                        0 <= cc < c && 0 <= rr < nc implies #[trigger] values@[cc * nc + rr]
                        == self.at(cc, rr) by {
                        lemma_offset_in_bounds(rr, cc, nc as int, c as int);
                        assert(nc * c == c * nc) by (nonlinear_arith);
                        assert(values@[cc * nc + rr] == before[cc * nc + rr]);
                    }
                }
                r += 1;
            }
            proof {
                assert((c + 1) * nc == c * nc + nc) by (nonlinear_arith);
            }
            c += 1;
        }
        proof {
            assert(nr * nc == nc * nr) by (nonlinear_arith);
        }
        NaiveMatrix { nrows: nc, ncols: nr, values }
    }
}

/// Transposing twice gives back the matrix, element by element.
pub proof fn lemma_transpose_involution<T>(
    a: NaiveMatrix<T>,
    t: NaiveMatrix<T>,
    tt: NaiveMatrix<T>,
)
    requires
        t.is_transpose_of(&a),
        tt.is_transpose_of(&t),
    ensures
        tt.rows() == a.rows(),
        tt.cols() == a.cols(),
        forall|r: int, c: int| a.in_bounds(r, c) ==> #[trigger] tt.at(r, c) == a.at(r, c),
{
    assert forall|r: int, c: int| a.in_bounds(r, c) implies #[trigger] tt.at(r, c) == a.at(r, c) by {
        assert(t.in_bounds(c, r));
        assert(tt.at(r, c) == t.at(c, r));
        assert(t.at(c, r) == a.at(r, c));
    }
}


/// The sum, in increasing `i < m`, of `a.at(r, i) * b.at(i, c)`, starting
/// from zero: the value that the product of `a` and `b` holds at `(r, c)`.
pub open spec fn dot_sum<T: Scalar>(a: NaiveMatrix<T>, b: NaiveMatrix<T>, r: int, c: int, m: int) -> T
    decreases m,
{
    if m <= 0 {
        T::spec_zero()
    } else {
        dot_sum(a, b, r, c, m - 1).spec_plus(a.at(r, m - 1).spec_times(b.at(m - 1, c)))
    }
}

/// The sum, in increasing `i < k`, of `m.at(r, i) * m.at(c, i)`, starting
/// from zero: the value that `m * mᵗ` holds at `(r, c)`.
pub open spec fn gram_sum<T: Scalar>(m: NaiveMatrix<T>, r: int, c: int, k: int) -> T
    decreases k,
{
    if k <= 0 {
        T::spec_zero()
    } else {
        gram_sum(m, r, c, k - 1).spec_plus(m.at(r, k - 1).spec_times(m.at(c, k - 1)))
    }
}

/// `p` is the product of `m` with its own transpose.
pub open spec fn is_product_with_transpose<T: Scalar>(p: NaiveMatrix<T>, m: NaiveMatrix<T>) -> bool {
    &&& p.rows() == m.rows()
    &&& p.cols() == m.rows()
    &&& forall|r: int, c: int| #[trigger]
        p.in_bounds(r, c) ==> p.at(r, c) == gram_sum(m, r, c, m.cols() as int)
}

/// Multiplying by a transpose sums the products of two rows of `a`.
proof fn lemma_dot_transpose<T: Scalar>(a: NaiveMatrix<T>, t: NaiveMatrix<T>, r: int, c: int, k: int)
    requires
        t.is_transpose_of(&a),
        0 <= c < a.rows(),
        0 <= k <= a.cols(),
    ensures
        dot_sum(a, t, r, c, k) == gram_sum(a, r, c, k),
    decreases k,
{
    if k > 0 {
        lemma_dot_transpose(a, t, r, c, k - 1);
        assert(a.in_bounds(c, k - 1));
        assert(t.at(k - 1, c) == a.at(c, k - 1));
    }
}

impl<T: Scalar> NaiveMatrix<T> {
    /// The element at `(r, c)` of the product of `self` and `other`.
    fn dot_entry(&self, other: &NaiveMatrix<T>, r: usize, c: usize) -> (s: T)
        requires
            self.wf(),
            other.wf(),
            r < self.rows(),
            c < other.cols(),
            self.cols() <= other.rows(),
        ensures
            s == dot_sum(*self, *other, r as int, c as int, self.cols() as int),
    {
        let mut sum = T::zero();
        let mut i: usize = 0;
        while i < self.ncols
            invariant
                self.wf(),
                other.wf(),
                r < self.rows(),
                c < other.cols(),
                self.cols() <= other.rows(),
                i <= self.cols(),
                sum == dot_sum(*self, *other, r as int, c as int, i as int),
            decreases self.cols() - i,
        {
            sum = sum.plus(self.get(r, i).times(other.get(i, c)));
            i += 1;
        }
        sum
    }

    /// The product of `self` and `other`, contracting over the column count
    /// that both share: the element at `(r, c)` is the sum, in increasing
    /// `i`, of `self.get(r, i) * other.get(i, c)`.
    ///
    /// The operands are refused unless their column counts agree, so the sum
    /// reads the first `self.ncols()` rows of `other`, which must exist.
    pub fn dot(&self, other: NaiveMatrix<T>) -> (res: Result<NaiveMatrix<T>, MatrixError>)
        requires
            self.wf(),
            other.wf(),
            self.cols() == other.cols() ==> self.cols() <= other.rows(),
        ensures
            res is Err <==> self.cols() != other.cols(),
            res is Err ==> res == Err::<NaiveMatrix<T>, MatrixError>(MatrixError::DimensionMismatch),
            res matches Ok(m) ==> {
                &&& m.wf()
                &&& m.rows() == self.rows()
                &&& m.cols() == other.cols()
                &&& forall|r: int, c: int| #[trigger]
                    m.in_bounds(r, c) ==> m.at(r, c) == dot_sum(*self, other, r, c, self.cols() as int)
            },
    {
        if self.ncols != other.ncols {
            return Err(MatrixError::DimensionMismatch);
        }
        let nr = self.nrows;
        let nc = other.ncols;
        let ghost inner = self.cols() as int;
        let mut values: Vec<T> = Vec::new();
        let mut c: usize = 0;
        while c < nc
            invariant
                self.wf(),
                other.wf(),
                nr == self.rows(),
                nc == other.cols(),
                inner == self.cols(),
                inner <= other.rows(),
                c <= nc,
                values@.len() == c * nr,
                forall|cc: int, rr: int|
                    0 <= cc < c && 0 <= rr < nr ==> #[trigger] values@[cc * nr + rr] == dot_sum(
                        *self,
                        other,
                        rr,
                        cc,
                        inner,
                    ),
            decreases nc - c,
        {
            let mut r: usize = 0;
            while r < nr
                invariant
                    self.wf(),
                    other.wf(),
                    nr == self.rows(),
                    nc == other.cols(),
                    inner == self.cols(),
                    inner <= other.rows(),
                    c < nc,
                    r <= nr,
                    values@.len() == c * nr + r,
                    forall|cc: int, rr: int|
                        0 <= cc < c && 0 <= rr < nr ==> #[trigger] values@[cc * nr + rr]
                            == dot_sum(*self, other, rr, cc, inner),
                    forall|rr: int|
                        0 <= rr < r ==> #[trigger] values@[c * nr + rr] == dot_sum(
                            *self,
                            other,
                            rr,
                            c as int,
                            inner,
                        ),
                decreases nr - r,
            {
                let x = self.dot_entry(&other, r, c);
                let ghost before = values@;
                values.push(x);
                proof {
                    assert forall|cc: int, rr: int|
                        0 <= cc < c && 0 <= rr < nr implies #[trigger] values@[cc * nr + rr]
                        == dot_sum(*self, other, rr, cc, inner) by {
                        lemma_offset_in_bounds(rr, cc, nr as int, c as int);
                        assert(nr * c == c * nr) by (nonlinear_arith);
                        assert(values@[cc * nr + rr] == before[cc * nr + rr]);
                    }
                }
                r += 1;
            }
            proof {
                assert((c + 1) * nr == c * nr + nr) by (nonlinear_arith);
            }
            c += 1;
        }
        proof {
            assert(nc * nr == nr * nc) by (nonlinear_arith);
        }
        let m = NaiveMatrix { nrows: nr, ncols: nc, values };
        proof {
            assert forall|r: int, c: int| #[trigger]
                m.in_bounds(r, c) implies m.at(r, c) == dot_sum(*self, other, r, c, inner) by {
                assert(values@[c * nr + r] == dot_sum(*self, other, r, c, inner));
            }
        }
        Ok(m)
    }

    /// The product of `m` with its own transpose, `m * mᵗ`: symmetric, and
    /// positive semi-definite for real-valued scalars. The product is only
    /// formed for a square `m`, as `dot` requires matching column counts.
    pub fn product_with_transpose(m: &NaiveMatrix<T>) -> (res: Result<NaiveMatrix<T>, MatrixError>)
        requires
            m.wf(),
        ensures
            res is Err <==> m.rows() != m.cols(),
            res is Err ==> res == Err::<NaiveMatrix<T>, MatrixError>(MatrixError::DimensionMismatch),
            res matches Ok(p) ==> p.wf() && is_product_with_transpose(p, *m),
    {
        let t = m.transpose();
        let res = m.dot(t);
        proof {
            if res is Ok {
                let p = res->Ok_0;
                assert forall|r: int, c: int| #[trigger]
                    p.in_bounds(r, c) implies p.at(r, c) == gram_sum(*m, r, c, m.cols() as int) by {
                    lemma_dot_transpose(*m, t, r, c, m.cols() as int);
                }
            }
        }
        res
    }

}

/// The sum, in increasing `i < m`, of `l.at(k, i) * l.at(j, i)`, starting
/// from zero: the part of row `j` of a Cholesky factor that the cell
/// `(j, k)` subtracts.
pub open spec fn chol_partial<T: Scalar>(l: NaiveMatrix<T>, j: int, k: int, m: int) -> T
    decreases m,
{
    if m <= 0 {
        T::spec_zero()
    } else {
        chol_partial(l, j, k, m - 1).spec_plus(l.at(k, m - 1).spec_times(l.at(j, m - 1)))
    }
}

/// The sum, in increasing `k < m`, of `l.at(j, k)` squared, starting from
/// zero.
pub open spec fn chol_squares<T: Scalar>(l: NaiveMatrix<T>, j: int, m: int) -> T
    decreases m,
{
    if m <= 0 {
        T::spec_zero()
    } else {
        chol_squares(l, j, m - 1).spec_plus(l.at(j, m - 1).spec_times(l.at(j, m - 1)))
    }
}

/// The cell `(j, k)`, below the diagonal, of the factor `l` of `a` is
/// `(a(j, k) - chol_partial(l, j, k, k)) / l(k, k)`.
pub open spec fn chol_cell_ok<T: Scalar>(a: NaiveMatrix<T>, l: NaiveMatrix<T>, j: int, k: int) -> bool {
    l.at(j, k) == a.at(j, k).spec_minus(chol_partial(l, j, k, k)).spec_divide(l.at(k, k))
}

/// The candidate for the diagonal cell `(j, j)`: `a(j, j)` less the squares
/// of row `j` of `l` left of the diagonal.
pub open spec fn chol_candidate<T: Scalar>(a: NaiveMatrix<T>, l: NaiveMatrix<T>, j: int) -> T {
    a.at(j, j).spec_minus(chol_squares(l, j, j))
}

/// Row `j` of `l` left of the diagonal follows the recurrence.
pub open spec fn chol_row_ok<T: Scalar>(a: NaiveMatrix<T>, l: NaiveMatrix<T>, j: int) -> bool {
    forall|k: int| 0 <= k < j ==> #[trigger] chol_cell_ok(a, l, j, k)
}

/// Row `j` of `l` up to the diagonal is finished: its candidate is positive
/// and the diagonal holds its square root.
pub open spec fn chol_done<T: Scalar>(a: NaiveMatrix<T>, l: NaiveMatrix<T>, j: int) -> bool {
    &&& chol_row_ok(a, l, j)
    &&& chol_candidate(a, l, j).spec_is_positive()
    &&& l.at(j, j) == chol_candidate(a, l, j).spec_sqrt()
}

/// The rows before `j` of `l` hold the Cholesky factor of `a`.
pub open spec fn chol_done_upto<T: Scalar>(a: NaiveMatrix<T>, l: NaiveMatrix<T>, j: int) -> bool {
    forall|jj: int| 0 <= jj < j ==> #[trigger] chol_done(a, l, jj)
}

proof fn lemma_partial_frame<T: Scalar>(l1: NaiveMatrix<T>, l2: NaiveMatrix<T>, j: int, k: int, m: int)
    requires
        forall|i: int| 0 <= i < m ==> l1.at(k, i) == l2.at(k, i) && l1.at(j, i) == l2.at(j, i),
    ensures
        chol_partial(l1, j, k, m) == chol_partial(l2, j, k, m),
    decreases m,
{
    if m > 0 {
        lemma_partial_frame(l1, l2, j, k, m - 1);
    }
}

proof fn lemma_squares_frame<T: Scalar>(l1: NaiveMatrix<T>, l2: NaiveMatrix<T>, j: int, m: int)
    requires
        forall|i: int| 0 <= i < m ==> l1.at(j, i) == l2.at(j, i),
    ensures
        chol_squares(l1, j, m) == chol_squares(l2, j, m),
    decreases m,
{
    if m > 0 {
        lemma_squares_frame(l1, l2, j, m - 1);
    }
}

/// What is established of the rows of `l` before `j`, and of cells
/// `(j, k)` for `k < kk`, survives any change outside of them.
proof fn lemma_chol_frame<T: Scalar>(a: NaiveMatrix<T>, l1: NaiveMatrix<T>, l2: NaiveMatrix<T>, j: int, kk: int)
    requires
        0 <= kk <= j,
        chol_done_upto(a, l1, j),
        forall|k: int| 0 <= k < kk ==> #[trigger] chol_cell_ok(a, l1, j, k),
        forall|r: int, c: int|
            0 <= c <= r && (r < j || (r == j && c < kk)) ==> #[trigger] l2.at(r, c) == l1.at(r, c),
    ensures
        chol_done_upto(a, l2, j),
        forall|k: int| 0 <= k < kk ==> #[trigger] chol_cell_ok(a, l2, j, k),
        chol_squares(l2, j, kk) == chol_squares(l1, j, kk),
{
    assert forall|jj: int| 0 <= jj < j implies #[trigger] chol_done(a, l2, jj) by {
        assert(chol_done(a, l1, jj));
        assert forall|k: int| 0 <= k < jj implies #[trigger] chol_cell_ok(a, l2, jj, k) by {
            assert(chol_cell_ok(a, l1, jj, k));
            assert(l2.at(jj, k) == l1.at(jj, k));
            assert(l2.at(k, k) == l1.at(k, k));
            assert forall|i: int| 0 <= i < k implies l1.at(k, i) == l2.at(k, i) && l1.at(jj, i)
                == l2.at(jj, i) by {
                assert(l2.at(k, i) == l1.at(k, i));
                assert(l2.at(jj, i) == l1.at(jj, i));
            }
            lemma_partial_frame(l1, l2, jj, k, k);
        }
        assert forall|i: int| 0 <= i < jj implies l1.at(jj, i) == l2.at(jj, i) by {
            assert(l2.at(jj, i) == l1.at(jj, i));
        }
        lemma_squares_frame(l1, l2, jj, jj);
        assert(l2.at(jj, jj) == l1.at(jj, jj));
    }
    assert forall|k: int| 0 <= k < kk implies #[trigger] chol_cell_ok(a, l2, j, k) by {
        assert(chol_cell_ok(a, l1, j, k));
        assert(l2.at(j, k) == l1.at(j, k));
        assert(l2.at(k, k) == l1.at(k, k));
        assert forall|i: int| 0 <= i < k implies l1.at(k, i) == l2.at(k, i) && l1.at(j, i) == l2.at(
            j,
            i,
        ) by {
            assert(l2.at(k, i) == l1.at(k, i));
            assert(l2.at(j, i) == l1.at(j, i));
        }
        lemma_partial_frame(l1, l2, j, k, k);
    }
    assert forall|i: int| 0 <= i < kk implies l1.at(j, i) == l2.at(j, i) by {
        assert(l2.at(j, i) == l1.at(j, i));
    }
    lemma_squares_frame(l1, l2, j, kk);
}

/// Two inputs that agree on the lower triangle and the diagonal give
/// factors that agree there, as far as both have progressed.
proof fn lemma_chol_unique<T: Scalar>(
    a1: NaiveMatrix<T>,
    a2: NaiveMatrix<T>,
    l1: NaiveMatrix<T>,
    l2: NaiveMatrix<T>,
    j: int,
    kk: int,
)
    requires
        0 <= kk <= j,
        forall|r: int, c: int| 0 <= c <= r <= j ==> #[trigger] a1.at(r, c) == a2.at(r, c),
        chol_done_upto(a1, l1, j),
        chol_done_upto(a2, l2, j),
        forall|k: int| 0 <= k < kk ==> #[trigger] chol_cell_ok(a1, l1, j, k),
        forall|k: int| 0 <= k < kk ==> #[trigger] chol_cell_ok(a2, l2, j, k),
    ensures
        forall|r: int, c: int| 0 <= c <= r < j ==> #[trigger] l1.at(r, c) == l2.at(r, c),
        forall|k: int| 0 <= k < kk ==> #[trigger] l1.at(j, k) == l2.at(j, k),
    decreases j, kk,
{
    if kk > 0 {
        let k = kk - 1;
        lemma_chol_unique(a1, a2, l1, l2, j, k);
        assert(chol_cell_ok(a1, l1, j, k));
        assert(chol_cell_ok(a2, l2, j, k));
        assert forall|i: int| 0 <= i < k implies l1.at(k, i) == l2.at(k, i) && l1.at(j, i) == l2.at(
            j,
            i,
        ) by {
            assert(l1.at(k, i) == l2.at(k, i));
            assert(l1.at(j, i) == l2.at(j, i));
        }
        lemma_partial_frame(l1, l2, j, k, k);
        assert(l1.at(k, k) == l2.at(k, k));
        assert(a1.at(j, k) == a2.at(j, k));
    } else if j > 0 {
        let p = j - 1;
        assert(chol_done(a1, l1, p));
        assert(chol_done(a2, l2, p));
        assert forall|jj: int| 0 <= jj < p implies #[trigger] chol_done(a1, l1, jj) by {
            assert(chol_done(a1, l1, jj));
        }
        assert forall|jj: int| 0 <= jj < p implies #[trigger] chol_done(a2, l2, jj) by {
            assert(chol_done(a2, l2, jj));
        }
        lemma_chol_unique(a1, a2, l1, l2, p, p);
        assert forall|i: int| 0 <= i < p implies l1.at(p, i) == l2.at(p, i) by {
            assert(l1.at(p, i) == l2.at(p, i));
        }
        lemma_squares_frame(l1, l2, p, p);
        assert(a1.at(p, p) == a2.at(p, p));
        assert(l1.at(p, p) == l2.at(p, p));
        assert forall|r: int, c: int| 0 <= c <= r < j implies #[trigger] l1.at(r, c) == l2.at(r, c) by {
            if r < p {
                assert(l1.at(r, c) == l2.at(r, c));
            } else if c < p {
                assert(l1.at(p, c) == l2.at(p, c));
            }
        }
    }
}

/// The factorization reads only the lower triangle and the diagonal of its
/// input: for two inputs that agree there, factors that have reached row `j`
/// agree on the rows before it and on row `j` left of the diagonal, and the
/// diagonal candidates of row `j` are equal, so both go on, or both stop,
/// in the same way.
pub proof fn lemma_cholesky_reads_lower_triangle<T: Scalar>(
    a1: NaiveMatrix<T>,
    a2: NaiveMatrix<T>,
    l1: NaiveMatrix<T>,
    l2: NaiveMatrix<T>,
    j: int,
)
    requires
        0 <= j,
        forall|r: int, c: int| 0 <= c <= r <= j ==> #[trigger] a1.at(r, c) == a2.at(r, c),
        chol_done_upto(a1, l1, j),
        chol_done_upto(a2, l2, j),
        chol_row_ok(a1, l1, j),
        chol_row_ok(a2, l2, j),
    ensures
        forall|r: int, c: int| 0 <= c <= r < j ==> #[trigger] l1.at(r, c) == l2.at(r, c),
        forall|k: int| 0 <= k < j ==> #[trigger] l1.at(j, k) == l2.at(j, k),
        chol_candidate(a1, l1, j) == chol_candidate(a2, l2, j),
{
    assert forall|k: int| 0 <= k < j implies #[trigger] chol_cell_ok(a1, l1, j, k) by {}
    assert forall|k: int| 0 <= k < j implies #[trigger] chol_cell_ok(a2, l2, j, k) by {}
    lemma_chol_unique(a1, a2, l1, l2, j, j);
    assert forall|i: int| 0 <= i < j implies l1.at(j, i) == l2.at(j, i) by {
        assert(l1.at(j, i) == l2.at(j, i));
    }
    lemma_squares_frame(l1, l2, j, j);
    assert(a1.at(j, j) == a2.at(j, j));
}

impl<T: Scalar> NaiveMatrix<T> {
    /// `chol_partial(self, j, k, k)`, read from the current contents.
    fn chol_partial_sum(&self, j: usize, k: usize) -> (s: T)
        requires
            self.wf(),
            k < j < self.rows(),
            j < self.cols(),
        ensures
            s == chol_partial(*self, j as int, k as int, k as int),
    {
        let mut s = T::zero();
        let mut i: usize = 0;
        while i < k
            invariant
                self.wf(),
                k < j < self.rows(),
                j < self.cols(),
                i <= k,
                s == chol_partial(*self, j as int, k as int, i as int),
            decreases k - i,
        {
            s = s.plus(self.get(k, i).times(self.get(j, i)));
            i += 1;
        }
        s
    }

    /// Factorizes a symmetric positive-definite matrix in place: on success
    /// the lower triangle, diagonal included, holds the Cholesky factor `L`
    /// with `L * Lᵗ` equal to the original matrix. Column by column, each cell
    /// `(j, k)` below the diagonal becomes `(A(j, k) - Σ_{i<k} L(k, i) L(j, i))
    /// / L(k, k)`, and the diagonal cell `(j, j)` the square root of its
    /// candidate `A(j, j) - Σ_{k<j} L(j, k)²`, sums taken in increasing order.
    /// Only the lower triangle and the diagonal of the input are read; the
    /// strict upper triangle is never written.
    ///
    /// A non-square matrix is refused before any element changes. The first
    /// diagonal candidate that is not strictly positive stops the
    /// factorization, with the rows before it and its own row left of the
    /// diagonal already overwritten.
    pub fn naive_cholesky(&mut self) -> (res: Result<(), MatrixError>)
        requires
            old(self).wf(),
        ensures
            final(self).wf(),
            final(self).rows() == old(self).rows(),
            final(self).cols() == old(self).cols(),
            res == Err::<(), MatrixError>(MatrixError::NotSquareError) <==> old(self).rows()
                != old(self).cols(),
            res == Err::<(), MatrixError>(MatrixError::NotSquareError) ==> final(self).elems()
                == old(self).elems(),
            res is Ok ==> chol_done_upto(*old(self), *final(self), old(self).rows() as int),
            res == Err::<(), MatrixError>(MatrixError::NotPositiveDefiniteError) <==> {
                &&& old(self).rows() == old(self).cols()
                &&& exists|j: int|
                    0 <= j < old(self).rows() && chol_done_upto(*old(self), *final(self), j)
                        && chol_row_ok(*old(self), *final(self), j) && !(#[trigger] chol_candidate(
                        *old(self),
                        *final(self),
                        j,
                    )).spec_is_positive()
            },
            forall|r: int, c: int|
                old(self).in_bounds(r, c) && r < c ==> #[trigger] final(self).at(r, c) == old(
                    self,
                ).at(r, c),
    {
        if self.nrows != self.ncols {
            return Err(MatrixError::NotSquareError);
        }
        let n = self.ncols;
        let ghost a = *self;
        let mut j: usize = 0;
        while j < n
            invariant
                self.wf(),
                self.rows() == n,
                self.cols() == n,
                a == *old(self),
                a.rows() == n,
                a.cols() == n,
                j <= n,
                chol_done_upto(a, *self, j as int),
                forall|r: int, c: int|
                    self.in_bounds(r, c) && r < c ==> #[trigger] self.at(r, c) == a.at(r, c),
                forall|r: int, c: int|
                    self.in_bounds(r, c) && j <= r && c <= r ==> #[trigger] self.at(r, c) == a.at(
                        r,
                        c,
                    ),
            decreases n - j,
        {
            let mut d = T::zero();
            let mut k: usize = 0;
            while k < j
                invariant
                    self.wf(),
                    self.rows() == n,
                    self.cols() == n,
                    a == *old(self),
                    a.rows() == n,
                    a.cols() == n,
                    j < n,
                    k <= j,
                    chol_done_upto(a, *self, j as int),
                    forall|kk: int| 0 <= kk < k ==> #[trigger] chol_cell_ok(a, *self, j as int, kk),
                    d == chol_squares(*self, j as int, k as int),
                    forall|r: int, c: int|
                        self.in_bounds(r, c) && r < c ==> #[trigger] self.at(r, c) == a.at(r, c),
                    forall|r: int, c: int|
                        self.in_bounds(r, c) && c <= r && (j < r || (j == r && k <= c))
                            ==> #[trigger] self.at(r, c) == a.at(r, c),
                decreases j - k,
            {
                let s = self.chol_partial_sum(j, k);
                let v = self.get(j, k).minus(s).divide(self.get(k, k));
                let ghost prev = *self;
                self.set(j, k, v);
                proof {
                    lemma_chol_frame(a, prev, *self, j as int, k as int);
                    assert forall|i: int| 0 <= i < k implies prev.at(k as int, i) == self.at(
                        k as int,
                        i,
                    ) && prev.at(j as int, i) == self.at(j as int, i) by {
                        assert(self.at(k as int, i) == prev.at(k as int, i));
                        assert(self.at(j as int, i) == prev.at(j as int, i));
                    }
                    lemma_partial_frame(prev, *self, j as int, k as int, k as int);
                    assert(self.at(k as int, k as int) == prev.at(k as int, k as int));
                    assert(chol_cell_ok(a, *self, j as int, k as int));
                    assert(self.at(j as int, k as int) == v);
                }
                d = d.plus(v.times(v));
                k += 1;
            }
            let cand = self.get(j, j).minus(d);
            if !cand.is_positive() {
                proof {
                    assert(chol_candidate(a, *self, j as int) == cand);
                    assert(chol_row_ok(a, *self, j as int));
                }
                return Err(MatrixError::NotPositiveDefiniteError);
            }
            let ghost prev = *self;
            self.set(j, j, cand.sqrt());
            proof {
                lemma_chol_frame(a, prev, *self, j as int, j as int);
                assert(chol_done(a, *self, j as int));
                assert forall|jj: int| 0 <= jj < j + 1 implies #[trigger] chol_done(a, *self, jj) by {
                    if jj < j {
                        assert(chol_done_upto(a, *self, j as int));
                    }
                }
            }
            j += 1;
        }
        proof {
            assert forall|jj: int| 0 <= jj < n implies (#[trigger] chol_candidate(
                a,
                *self,
                jj,
            )).spec_is_positive() by {
                assert(chol_done(a, *self, jj));
            }
        }
        Ok(())
    }
}

impl<T: Scalar + UnitSample> NaiveMatrix<T> {
    /// A matrix whose elements are independent draws from `[0, 1)`.
    pub fn rand(nrows: usize, ncols: usize) -> (m: NaiveMatrix<T>)
        requires
            nrows * ncols <= usize::MAX,
        ensures
            m.wf(),
            m.rows() == nrows,
            m.cols() == ncols,
    {
        let total = nrows * ncols;
        let mut values: Vec<T> = Vec::new();
        let mut i: usize = 0;
        while i < total
            invariant
                i <= total,
                values@.len() == i,
            decreases total - i,
        {
            values.push(T::sample_unit());
            i += 1;
        }
        NaiveMatrix { nrows, ncols, values }
    }

    /// `m * mᵗ` for a freshly drawn random `m` of the given dimensions. The
    /// product is only formed for a square `m`.
    pub fn generate_positive_definite(nrows: usize, ncols: usize) -> (res: Result<
        NaiveMatrix<T>,
        MatrixError,
    >)
        requires
            nrows * ncols <= usize::MAX,
        ensures
            res is Err <==> nrows != ncols,
            res is Err ==> res == Err::<NaiveMatrix<T>, MatrixError>(MatrixError::DimensionMismatch),
            res matches Ok(p) ==> {
                &&& p.wf()
                &&& p.rows() == nrows
                &&& p.cols() == nrows
                &&& exists|m: NaiveMatrix<T>| #[trigger]
                    is_product_with_transpose(p, m) && m.wf() && m.rows() == nrows && m.cols()
                        == ncols
            },
    {
        let m = NaiveMatrix::rand(nrows, ncols);
        NaiveMatrix::product_with_transpose(&m)
    }
}

} // verus!
