//! Dense fixed-point matrices.
//!
//! A [`Matrix`] is a row-major 2-D array of fixed-point scalars with
//! explicit row and column counts, fixed at construction.  Its view is a
//! sequence of rows, each a sequence of stored bit values.  `add` and
//! `subtract` demand identical dimensions; element access is
//! bounds-checked.

use vstd::prelude::*;

use crate::NetError;
use crate::fixed::{MAX_MAG, fx_add, fx_mul, fx_sub};
use crate::fixed::{add_fx, mul_fx, sub_fx};
use crate::vector::{Vector, in_range, vadd, vmul, vscale, vsub};

verus! {

/// Elementwise saturating sum of two grids of equal shape.
pub open spec fn madd(a: Seq<Seq<int>>, b: Seq<Seq<int>>) -> Seq<Seq<int>> {
    Seq::new(a.len(), |r: int| vadd(a[r], b[r]))
}

/// Elementwise saturating difference of two grids of equal shape.
pub open spec fn msub(a: Seq<Seq<int>>, b: Seq<Seq<int>>) -> Seq<Seq<int>> {
    Seq::new(a.len(), |r: int| vsub(a[r], b[r]))
}

/// Every element of the grid multiplied by the scalar `k`.
pub open spec fn mscale(a: Seq<Seq<int>>, k: int) -> Seq<Seq<int>> {
    Seq::new(a.len(), |r: int| vscale(a[r], k))
}

/// All scalars of the grid lie in the saturating range.
pub open spec fn grid_in_range(a: Seq<Seq<int>>) -> bool {
    forall|r: int| 0 <= r < a.len() ==> in_range(#[trigger] a[r])
}

/// The outer product of an input vector and a delta vector: row `j`,
/// column `i` holds `x[i] * d[j]`.  This is the weight-gradient rule of
/// backpropagation; the result has one row per output component and one
/// column per input component.
pub open spec fn outer(x: Seq<int>, d: Seq<int>) -> Seq<Seq<int>> {
    Seq::new(d.len(), |j: int| Seq::new(x.len(), |i: int| fx_mul(x[i], d[j])))
}

/// Row-major position of entry `(r, c)` lies inside the flat array.
proof fn lemma_flat_index(r: int, c: int, rows: int, cols: int) by (nonlinear_arith)
    requires
        0 <= r < rows,
        0 <= c < cols,
    ensures
        0 <= r * cols + c < rows * cols,
{
}

/// Distinct entries have distinct row-major positions.
proof fn lemma_flat_injective(r1: int, c1: int, r2: int, c2: int, cols: int) by (nonlinear_arith)
    requires
        0 <= c1 < cols,
        0 <= c2 < cols,
        0 <= r1,
        0 <= r2,
        !(r1 == r2 && c1 == c2),
    ensures
        r1 * cols + c1 != r2 * cols + c2,
{
}

/// A dense row-major 2-D array of fixed-point scalars.
#[derive(Debug)]
pub struct Matrix {
    rows: usize,
    cols: usize,
    data: Vec<i64>,
}

impl View for Matrix {
    type V = Seq<Seq<int>>;

    closed spec fn view(&self) -> Seq<Seq<int>> {
        Seq::new(
            self.rows as nat,
            |r: int| Seq::new(self.cols as nat, |c: int| self.data@[r * self.cols + c] as int),
        )
    }
}

impl Matrix {
    /// The stored flat array matches the dimensions.
    pub closed spec fn wf(&self) -> bool {
        self.data@.len() == (self.rows as int) * (self.cols as int)
    }

    /// The fixed number of rows.
    pub closed spec fn spec_rows(&self) -> int {
        self.rows as int
    }

    /// The fixed number of columns.
    pub closed spec fn spec_cols(&self) -> int {
        self.cols as int
    }

    /// The view has one row per `spec_rows()`, each of length `spec_cols()`.
    pub proof fn lemma_shape(&self)
        ensures
            self@.len() == self.spec_rows(),
            forall|r: int|
                0 <= r < self.spec_rows() ==> (#[trigger] self@[r]).len() == self.spec_cols(),
            self.spec_rows() >= 0,
            self.spec_cols() >= 0,
            self.spec_rows() <= usize::MAX,
            self.spec_cols() <= usize::MAX,
    {
    }

    /// The element count of a well-formed matrix fits the machine word,
    /// since the elements are stored in one flat array.
    pub proof fn lemma_size(&self)
        requires
            self.wf(),
        ensures
            self.spec_rows() * self.spec_cols() <= usize::MAX,
    {
        broadcast use vstd::std_specs::vec::axiom_spec_len;

        assert(vstd::std_specs::vec::spec_vec_len(&self.data) == self.data@.len());
    }

    /// A `rows` by `cols` matrix of zeros.
    pub fn zeros(rows: usize, cols: usize) -> (m: Matrix)
        requires
            rows * cols <= usize::MAX,
        ensures
            m.wf(),
            m.spec_rows() == rows,
            m.spec_cols() == cols,
            forall|r: int, c: int|
                0 <= r < rows && 0 <= c < cols ==> #[trigger] m@[r][c] == 0,
    {
        proof {
            assert((rows as int) * (cols as int) >= 0) by (nonlinear_arith);
        }
        let n: usize = rows * cols;
        let m = Matrix { rows, cols, data: vec![0i64; n] };
        proof {
            assert forall|r: int, c: int|
                0 <= r < rows && 0 <= c < cols implies #[trigger] m@[r][c] == 0 by {
                lemma_flat_index(r, c, rows as int, cols as int);
            }
        }
        m
    }

    /// A matrix owning the given row-major flat data; `ShapeMismatch`
    /// exactly when the data length does not equal `rows * cols`.
    pub fn from_flat(rows: usize, cols: usize, data: Vec<i64>) -> (res: Result<Matrix, NetError>)
        ensures
            match res {
                Ok(m) => data@.len() == rows * cols && m.wf() && m.spec_rows() == rows
                    && m.spec_cols() == cols && (forall|r: int, c: int|
                    0 <= r < rows && 0 <= c < cols ==> #[trigger] m@[r][c] == data@[r * cols
                        + c] as int),
                Err(e) => data@.len() != rows * cols && e == NetError::ShapeMismatch,
            },
    {
        let dl = data.len();
        proof {
            assert((rows as int) * (cols as int) >= 0) by (nonlinear_arith);
            assert(data@.len() == dl);
        }
        if cols != 0 && rows > usize::MAX / cols {
            proof {
                assert((rows as int) * (cols as int) > usize::MAX) by (nonlinear_arith)
                    requires
                        cols as int > 0,
                        rows as int > (usize::MAX as int) / (cols as int),
                ;
            }
            return Err(NetError::ShapeMismatch);
        }
        let n: usize = if cols == 0 {
            proof {
                assert((rows as int) * (cols as int) == 0) by (nonlinear_arith)
                    requires
                        cols as int == 0,
                ;
            }
            0
        } else {
            proof {
                assert((rows as int) * (cols as int) <= usize::MAX) by (nonlinear_arith)
                    requires
                        cols as int > 0,
                        rows as int <= (usize::MAX as int) / (cols as int),
                ;
            }
            rows * cols
        };
        if data.len() != n {
            return Err(NetError::ShapeMismatch);
        }
        let m = Matrix { rows, cols, data };
        proof {
            assert forall|r: int, c: int|
                0 <= r < rows && 0 <= c < cols implies #[trigger] m@[r][c] == m.data@[r * cols
                + c] as int by {
                lemma_flat_index(r, c, rows as int, cols as int);
            }
        }
        Ok(m)
    }

    /// The element at `(r, c)` of a position known to be in bounds.
    pub(crate) fn entry(&self, r: usize, c: usize) -> (v: i64)
        requires
            self.wf(),
            r < self.spec_rows(),
            c < self.spec_cols(),
        ensures
            v as int == self@[r as int][c as int],
    {
        let n = self.data.len();
        proof {
            lemma_flat_index(r as int, c as int, self.rows as int, self.cols as int);
            assert((r as int) * (self.cols as int) + c < n);
        }
        self.data[r * self.cols + c]
    }

    /// The number of rows.
    pub fn row_count(&self) -> (n: usize)
        ensures
            n == self.spec_rows(),
    {
        self.rows
    }

    /// The number of columns.
    pub fn col_count(&self) -> (n: usize)
        ensures
            n == self.spec_cols(),
    {
        self.cols
    }

    /// The element at `(r, c)`; `IndexOutOfRange` exactly when the
    /// position is out of bounds.
    pub fn get_element(&self, r: usize, c: usize) -> (res: Result<i64, NetError>)
        requires
            self.wf(),
        ensures
            match res {
                Ok(v) => r < self.spec_rows() && c < self.spec_cols() && v as int
                    == self@[r as int][c as int],
                Err(e) => (r >= self.spec_rows() || c >= self.spec_cols()) && e
                    == NetError::IndexOutOfRange,
            },
    {
        if r < self.rows && c < self.cols {
            let n = self.data.len();
            proof {
                lemma_flat_index(r as int, c as int, self.rows as int, self.cols as int);
                assert((r as int) * (self.cols as int) + c < n);
            }
            Ok(self.data[r * self.cols + c])
        } else {
            Err(NetError::IndexOutOfRange)
        }
    }

    /// Replace the element at `(r, c)`; `IndexOutOfRange` exactly when
    /// the position is out of bounds, in which case the matrix is
    /// unchanged.
    pub fn set_element(&mut self, r: usize, c: usize, v: i64) -> (res: Result<(), NetError>)
        requires
            old(self).wf(),
        ensures
            final(self).wf(),
            final(self).spec_rows() == old(self).spec_rows(),
            final(self).spec_cols() == old(self).spec_cols(),
            match res {
                Ok(()) => r < old(self).spec_rows() && c < old(self).spec_cols() && final(self)@
                    == old(self)@.update(
                    r as int,
                    old(self)@[r as int].update(c as int, v as int),
                ),
                Err(e) => (r >= old(self).spec_rows() || c >= old(self).spec_cols()) && e
                    == NetError::IndexOutOfRange && final(self)@ == old(self)@,
            },
    {
        if r < self.rows && c < self.cols {
            let n = self.data.len();
            proof {
                lemma_flat_index(r as int, c as int, self.rows as int, self.cols as int);
                assert((r as int) * (self.cols as int) + c < n);
            }
            let idx: usize = r * self.cols + c;
            self.data[idx] = v;
            proof {
                let target = old(self)@.update(r as int, old(self)@[r as int].update(c as int, v as int));
                assert forall|rr: int| 0 <= rr < self.rows implies self@[rr] =~= target[rr] by {
                    assert forall|cc: int| 0 <= cc < self.cols implies self@[rr][cc] == target[rr][cc] by {
                        lemma_flat_index(rr, cc, self.rows as int, self.cols as int);
                        if !(rr == r as int && cc == c as int) {
                            lemma_flat_injective(rr, cc, r as int, c as int, self.cols as int);
                        }
                    }
                }
                assert(self@ =~~= target);
            }
            Ok(())
        } else {
            Err(NetError::IndexOutOfRange)
        }
    }

    /// Elementwise saturating sum; `ShapeMismatch` exactly when the
    /// dimensions differ.
    pub fn add(&self, other: &Matrix) -> (res: Result<Matrix, NetError>)
        requires
            self.wf(),
            other.wf(),
        ensures
            match res {
                Ok(m) => self.spec_rows() == other.spec_rows() && self.spec_cols()
                    == other.spec_cols() && m.wf() && m.spec_rows() == self.spec_rows()
                    && m.spec_cols() == self.spec_cols() && m@ == madd(self@, other@)
                    && grid_in_range(m@),
                Err(e) => (self.spec_rows() != other.spec_rows() || self.spec_cols()
                    != other.spec_cols()) && e == NetError::ShapeMismatch,
            },
    {
        if self.rows != other.rows || self.cols != other.cols {
            return Err(NetError::ShapeMismatch);
        }
        let n = self.data.len();
        let mut out: Vec<i64> = Vec::new();
        let mut i: usize = 0;
        while i < n
            invariant
                i <= n,
                n == self.data@.len() && n == other.data@.len(),
                out@.len() == i,
                forall|j: int| 0 <= j < i ==> #[trigger] out@[j] as int == fx_add(
                    self.data@[j] as int,
                    other.data@[j] as int,
                ),
                forall|j: int| 0 <= j < i ==> -MAX_MAG <= #[trigger] out@[j] <= MAX_MAG,
            decreases n - i,
        {
            out.push(add_fx(self.data[i], other.data[i]));
            i = i + 1;
        }
        let m = Matrix { rows: self.rows, cols: self.cols, data: out };
        proof {
            assert forall|r: int| 0 <= r < m.rows implies m@[r] =~= madd(self@, other@)[r] by {
                assert forall|c: int| 0 <= c < m.cols implies m@[r][c] == vadd(self@[r], other@[r])[c] by {
                    lemma_flat_index(r, c, m.rows as int, m.cols as int);
                }
            }
            assert(m@ =~~= madd(self@, other@));
        }
        Ok(m)
    }

    /// Elementwise saturating difference; `ShapeMismatch` exactly when
    /// the dimensions differ.
    pub fn subtract(&self, other: &Matrix) -> (res: Result<Matrix, NetError>)
        requires
            self.wf(),
            other.wf(),
        ensures
            match res {
                Ok(m) => self.spec_rows() == other.spec_rows() && self.spec_cols()
                    == other.spec_cols() && m.wf() && m.spec_rows() == self.spec_rows()
                    && m.spec_cols() == self.spec_cols() && m@ == msub(self@, other@)
                    && grid_in_range(m@),
                Err(e) => (self.spec_rows() != other.spec_rows() || self.spec_cols()
                    != other.spec_cols()) && e == NetError::ShapeMismatch,
            },
    {
        if self.rows != other.rows || self.cols != other.cols {
            return Err(NetError::ShapeMismatch);
        }
        let n = self.data.len();
        let mut out: Vec<i64> = Vec::new();
        let mut i: usize = 0;
        while i < n
            invariant
                i <= n,
                n == self.data@.len() && n == other.data@.len(),
                out@.len() == i,
                forall|j: int| 0 <= j < i ==> #[trigger] out@[j] as int == fx_sub(
                    self.data@[j] as int,
                    other.data@[j] as int,
                ),
                forall|j: int| 0 <= j < i ==> -MAX_MAG <= #[trigger] out@[j] <= MAX_MAG,
            decreases n - i,
        {
            out.push(sub_fx(self.data[i], other.data[i]));
            i = i + 1;
        }
        let m = Matrix { rows: self.rows, cols: self.cols, data: out };
        proof {
            assert forall|r: int| 0 <= r < m.rows implies m@[r] =~= msub(self@, other@)[r] by {
                assert forall|c: int| 0 <= c < m.cols implies m@[r][c] == vsub(self@[r], other@[r])[c] by {
                    lemma_flat_index(r, c, m.rows as int, m.cols as int);
                }
            }
            assert(m@ =~~= msub(self@, other@));
        }
        Ok(m)
    }

    /// Every element multiplied by `k`; dimension-preserving and total.
    pub fn scalar_multiply(&self, k: i64) -> (m: Matrix)
        requires
            self.wf(),
        ensures
            m.wf(),
            m.spec_rows() == self.spec_rows(),
            m.spec_cols() == self.spec_cols(),
            m@ == mscale(self@, k as int),
            grid_in_range(m@),
    {
        let n = self.data.len();
        let mut out: Vec<i64> = Vec::new();
        let mut i: usize = 0;
        while i < n
            invariant
                i <= n,
                n == self.data@.len(),
                out@.len() == i,
                forall|j: int| 0 <= j < i ==> #[trigger] out@[j] as int == fx_mul(
                    self.data@[j] as int,
                    k as int,
                ),
                forall|j: int| 0 <= j < i ==> -MAX_MAG <= #[trigger] out@[j] <= MAX_MAG,
            decreases n - i,
        {
            out.push(mul_fx(self.data[i], k));
            i = i + 1;
        }
        let m = Matrix { rows: self.rows, cols: self.cols, data: out };
        proof {
            assert forall|r: int| 0 <= r < m.rows implies m@[r] =~= mscale(self@, k as int)[r] by {
                assert forall|c: int| 0 <= c < m.cols implies m@[r][c] == vscale(self@[r], k as int)[c] by {
                    lemma_flat_index(r, c, m.rows as int, m.cols as int);
                }
            }
            assert(m@ =~~= mscale(self@, k as int));
        }
        m
    }
}

impl Clone for Matrix {
    /// An exact copy: same dimensions, same view.
    fn clone(&self) -> (r: Self)
        ensures
            r.wf() == self.wf(),
            r.spec_rows() == self.spec_rows(),
            r.spec_cols() == self.spec_cols(),
            r@ == self@,
    {
        let n = self.data.len();
        let mut out: Vec<i64> = Vec::new();
        let mut i: usize = 0;
        while i < n
            invariant
                i <= n,
                n == self.data@.len(),
                out@.len() == i,
                forall|j: int| 0 <= j < i ==> out@[j] == self.data@[j],
            decreases n - i,
        {
            out.push(self.data[i]);
            i = i + 1;
        }
        let r = Matrix { rows: self.rows, cols: self.cols, data: out };
        proof {
            assert(r.data@ =~= self.data@);
            assert(r@ =~~= self@);
        }
        r
    }
}

/// The outer product of an input vector and a delta vector, the
/// weight-gradient matrix of backpropagation: `d.len()` rows by
/// `x.len()` columns, entry `(j, i)` equal to `x[i] * d[j]`.
pub fn outer_product(x: &Vector, d: &Vector) -> (m: Matrix)
    requires
        d@.len() * x@.len() <= usize::MAX,
    ensures
        m.wf(),
        m.spec_rows() == d@.len(),
        m.spec_cols() == x@.len(),
        m@ == outer(x@, d@),
        grid_in_range(m@),
{
    let nr = d.len();
    let nc = x.len();
    let mut out: Vec<i64> = Vec::new();
    let mut r: usize = 0;
    while r < nr
        invariant
            r <= nr,
            nr == d@.len(),
            nc == x@.len(),
            nr * nc <= usize::MAX,
            out@.len() == r * nc,
            forall|rr: int, cc: int|
                0 <= rr < r && 0 <= cc < nc ==> #[trigger] out@[rr * nc + cc] as int == fx_mul(
                    x@[cc],
                    d@[rr],
                ),
            forall|j: int| 0 <= j < out@.len() ==> -MAX_MAG <= #[trigger] out@[j] <= MAX_MAG,
        decreases nr - r,
    {
        proof {
            assert((r + 1) * (nc as int) == r * nc + nc) by (nonlinear_arith);
            assert((r + 1) * (nc as int) <= (nr as int) * (nc as int)) by (nonlinear_arith)
                requires
                    r + 1 <= nr as int,
                    nc as int >= 0,
            ;
        }
        let dv = d.elements[r];
        let mut c: usize = 0;
        while c < nc
            invariant
                c <= nc,
                r < nr,
                nr == d@.len(),
                nc == x@.len(),
                nr * nc <= usize::MAX,
                (r + 1) * (nc as int) <= (nr as int) * (nc as int),
                (r + 1) * (nc as int) == r * (nc as int) + nc,
                dv as int == d@[r as int],
                out@.len() == r * nc + c,
                forall|rr: int, cc: int|
                    0 <= rr < r && 0 <= cc < nc ==> #[trigger] out@[rr * nc + cc] as int == fx_mul(
                        x@[cc],
                        d@[rr],
                    ),
                forall|cc: int|
                    0 <= cc < c ==> #[trigger] out@[r * nc + cc] as int == fx_mul(
                        x@[cc],
                        d@[r as int],
                    ),
                forall|j: int| 0 <= j < out@.len() ==> -MAX_MAG <= #[trigger] out@[j] <= MAX_MAG,
            decreases nc - c,
        {
            proof {
                assert forall|rr: int, cc: int|
                    0 <= rr < r && 0 <= cc < nc implies #[trigger] (rr * nc + cc) < r * nc + c by {
                    assert((rr + 1) * (nc as int) <= (r as int) * (nc as int) && rr * nc + cc < (rr
                        + 1) * (nc as int)) by (nonlinear_arith)
                        requires
                            rr + 1 <= r as int,
                            0 <= cc < nc as int,
                            0 <= rr,
                    ;
                }
            }
            out.push(mul_fx(x.elements[c], dv));
            c = c + 1;
        }
        r = r + 1;
    }
    let m = Matrix { rows: nr, cols: nc, data: out };
    proof {
        assert forall|rr: int| 0 <= rr < nr implies m@[rr] =~= outer(x@, d@)[rr] by {
            assert forall|cc: int| 0 <= cc < nc implies m@[rr][cc] == fx_mul(x@[cc], d@[rr]) by {
                lemma_flat_index(rr, cc, nr as int, nc as int);
            }
        }
        assert(m@ =~~= outer(x@, d@));
    }
    m
}

} // verus!
