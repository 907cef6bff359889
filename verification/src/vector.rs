//! Dense fixed-point vectors.
//!
//! A [`Vector`] is an ordered, fixed-length sequence of fixed-point
//! scalars.  Its view is the sequence of stored bit values as
//! mathematical integers.  Binary operations demand equal lengths and
//! report [`NetError::ShapeMismatch`] otherwise; element access is
//! bounds-checked and reports [`NetError::IndexOutOfRange`].

use vstd::prelude::*;

use crate::NetError;
use crate::fixed::{MAX_MAG, SCALE, fx_add, fx_mul, fx_sub};
use crate::fixed::{add_fx, mul_fx, sub_fx};

verus! {

/// All scalars of `s` lie in the saturating range.
pub open spec fn in_range(s: Seq<int>) -> bool {
    forall|i: int| 0 <= i < s.len() ==> -MAX_MAG <= #[trigger] s[i] <= MAX_MAG
}

/// Elementwise saturating sum of two equal-length sequences.
pub open spec fn vadd(a: Seq<int>, b: Seq<int>) -> Seq<int> {
    Seq::new(a.len(), |i: int| fx_add(a[i], b[i]))
}

/// Elementwise saturating difference of two equal-length sequences.
pub open spec fn vsub(a: Seq<int>, b: Seq<int>) -> Seq<int> {
    Seq::new(a.len(), |i: int| fx_sub(a[i], b[i]))
}

/// Elementwise saturating product of two equal-length sequences.
pub open spec fn vmul(a: Seq<int>, b: Seq<int>) -> Seq<int> {
    Seq::new(a.len(), |i: int| fx_mul(a[i], b[i]))
}

/// Every element multiplied by the scalar `k`.
pub open spec fn vscale(a: Seq<int>, k: int) -> Seq<int> {
    Seq::new(a.len(), |i: int| fx_mul(a[i], k))
}

/// The squared norm of `s`: the saturating sum of the squares of its
/// elements, accumulated left to right.  This is the norm `magnitude`
/// returns, and thereby the loss definition of the whole engine.
pub open spec fn mag(s: Seq<int>) -> int
    decreases s.len(),
{
    if s.len() == 0 {
        0
    } else {
        fx_add(mag(s.drop_last()), fx_mul(s.last(), s.last()))
    }
}

/// A dense 1-D array of fixed-point scalars.
#[derive(Debug)]
pub struct Vector {
    pub elements: Vec<i64>,
}

impl View for Vector {
    type V = Seq<int>;

    open spec fn view(&self) -> Seq<int> {
        self.elements@.map_values(|x: i64| x as int)
    }
}

impl Clone for Vector {
    /// An exact copy: the clone's view equals the original's.
    fn clone(&self) -> (r: Self)
        ensures
            r@ == self@,
    {
        let n = self.elements.len();
        let mut out: Vec<i64> = Vec::new();
        let mut i: usize = 0;
        while i < n
            invariant
                i <= n,
                n == self.elements@.len(),
                out@.len() == i,
                forall|j: int| 0 <= j < i ==> out@[j] == self.elements@[j],
            decreases n - i,
        {
            out.push(self.elements[i]);
            i = i + 1;
        }
        let r = Vector { elements: out };
        proof {
            assert(r@ =~= self@);
        }
        r
    }
}

impl Vector {
    /// A vector owning exactly the given stored bit values.
    pub fn from_vec(elements: Vec<i64>) -> (v: Vector)
        ensures
            v@.len() == elements@.len(),
            forall|i: int| 0 <= i < elements@.len() ==> v@[i] == elements@[i],
    {
        Vector { elements }
    }

    /// A vector of `n` zeros.
    pub fn zeros(n: usize) -> (v: Vector)
        ensures
            v@.len() == n,
            forall|i: int| 0 <= i < n ==> v@[i] == 0,
    {
        Vector { elements: vec![0i64; n] }
    }

    /// A vector of `n` ones (`SCALE` in stored bits).
    pub fn ones(n: usize) -> (v: Vector)
        ensures
            v@.len() == n,
            forall|i: int| 0 <= i < n ==> v@[i] == SCALE,
    {
        Vector { elements: vec![SCALE; n] }
    }

    /// The fixed length of the vector.
    pub fn len(&self) -> (n: usize)
        ensures
            n == self@.len(),
    {
        self.elements.len()
    }

    /// The element at `i`; `IndexOutOfRange` exactly when `i` is not an index.
    pub fn get_element(&self, i: usize) -> (r: Result<i64, NetError>)
        ensures
            match r {
                Ok(v) => i < self@.len() && v as int == self@[i as int],
                Err(e) => i >= self@.len() && e == NetError::IndexOutOfRange,
            },
    {
        if i < self.elements.len() {
            Ok(self.elements[i])
        } else {
            Err(NetError::IndexOutOfRange)
        }
    }

    /// Replace the element at `i`; `IndexOutOfRange` exactly when `i` is
    /// not an index, in which case the vector is unchanged.
    pub fn set_element(&mut self, i: usize, v: i64) -> (r: Result<(), NetError>)
        ensures
            match r {
                Ok(()) => i < old(self)@.len() && final(self)@ == old(self)@.update(
                    i as int,
                    v as int,
                ),
                Err(e) => i >= old(self)@.len() && e == NetError::IndexOutOfRange && final(self)@
                    == old(self)@,
            },
    {
        if i < self.elements.len() {
            self.elements[i] = v;
            proof {
                assert(self@ =~= old(self)@.update(i as int, v as int));
            }
            Ok(())
        } else {
            Err(NetError::IndexOutOfRange)
        }
    }

    /// Elementwise saturating sum; `ShapeMismatch` exactly when the
    /// lengths differ.
    pub fn add(&self, other: &Vector) -> (r: Result<Vector, NetError>)
        ensures
            match r {
                Ok(v) => self@.len() == other@.len() && v@ == vadd(self@, other@) && in_range(v@),
                Err(e) => self@.len() != other@.len() && e == NetError::ShapeMismatch,
            },
    {
        if self.elements.len() != other.elements.len() {
            return Err(NetError::ShapeMismatch);
        }
        let n = self.elements.len();
        let mut out: Vec<i64> = Vec::new();
        let mut i: usize = 0;
        while i < n
            invariant
                i <= n,
                n == self@.len() && n == other@.len(),
                n == self.elements@.len() && n == other.elements@.len(),
                out@.len() == i,
                forall|j: int| 0 <= j < i ==> #[trigger] out@[j] as int == fx_add(
                    self@[j],
                    other@[j],
                ),
                forall|j: int| 0 <= j < i ==> -MAX_MAG <= #[trigger] out@[j] <= MAX_MAG,
            decreases n - i,
        {
            out.push(add_fx(self.elements[i], other.elements[i]));
            i = i + 1;
        }
        let v = Vector { elements: out };
        proof {
            assert(v@ =~= vadd(self@, other@));
        }
        Ok(v)
    }

    /// Elementwise saturating difference; `ShapeMismatch` exactly when
    /// the lengths differ.
    pub fn subtract(&self, other: &Vector) -> (r: Result<Vector, NetError>)
        ensures
            match r {
                Ok(v) => self@.len() == other@.len() && v@ == vsub(self@, other@) && in_range(v@),
                Err(e) => self@.len() != other@.len() && e == NetError::ShapeMismatch,
            },
    {
        if self.elements.len() != other.elements.len() {
            return Err(NetError::ShapeMismatch);
        }
        let n = self.elements.len();
        let mut out: Vec<i64> = Vec::new();
        let mut i: usize = 0;
        while i < n
            invariant
                i <= n,
                n == self@.len() && n == other@.len(),
                n == self.elements@.len() && n == other.elements@.len(),
                out@.len() == i,
                forall|j: int| 0 <= j < i ==> #[trigger] out@[j] as int == fx_sub(
                    self@[j],
                    other@[j],
                ),
                forall|j: int| 0 <= j < i ==> -MAX_MAG <= #[trigger] out@[j] <= MAX_MAG,
            decreases n - i,
        {
            out.push(sub_fx(self.elements[i], other.elements[i]));
            i = i + 1;
        }
        let v = Vector { elements: out };
        proof {
            assert(v@ =~= vsub(self@, other@));
        }
        Ok(v)
    }

    /// Elementwise saturating product; `ShapeMismatch` exactly when the
    /// lengths differ.
    pub fn elementwise_multiply(&self, other: &Vector) -> (r: Result<Vector, NetError>)
        ensures
            match r {
                Ok(v) => self@.len() == other@.len() && v@ == vmul(self@, other@) && in_range(v@),
                Err(e) => self@.len() != other@.len() && e == NetError::ShapeMismatch,
            },
    {
        if self.elements.len() != other.elements.len() {
            return Err(NetError::ShapeMismatch);
        }
        let n = self.elements.len();
        let mut out: Vec<i64> = Vec::new();
        let mut i: usize = 0;
        while i < n
            invariant
                i <= n,
                n == self@.len() && n == other@.len(),
                n == self.elements@.len() && n == other.elements@.len(),
                out@.len() == i,
                forall|j: int| 0 <= j < i ==> #[trigger] out@[j] as int == fx_mul(
                    self@[j],
                    other@[j],
                ),
                forall|j: int| 0 <= j < i ==> -MAX_MAG <= #[trigger] out@[j] <= MAX_MAG,
            decreases n - i,
        {
            out.push(mul_fx(self.elements[i], other.elements[i]));
            i = i + 1;
        }
        let v = Vector { elements: out };
        proof {
            assert(v@ =~= vmul(self@, other@));
        }
        Ok(v)
    }

    /// Every element multiplied by `k`; shape-preserving and total.
    pub fn scalar_multiply(&self, k: i64) -> (v: Vector)
        ensures
            v@ == vscale(self@, k as int),
            in_range(v@),
    {
        let n = self.elements.len();
        let mut out: Vec<i64> = Vec::new();
        let mut i: usize = 0;
        while i < n
            invariant
                i <= n,
                n == self@.len(),
                n == self.elements@.len(),
                out@.len() == i,
                forall|j: int| 0 <= j < i ==> #[trigger] out@[j] as int == fx_mul(
                    self@[j],
                    k as int,
                ),
                forall|j: int| 0 <= j < i ==> -MAX_MAG <= #[trigger] out@[j] <= MAX_MAG,
            decreases n - i,
        {
            out.push(mul_fx(self.elements[i], k));
            i = i + 1;
        }
        let v = Vector { elements: out };
        proof {
            assert(v@ =~= vscale(self@, k as int));
        }
        v
    }

    /// The squared norm of the vector: the saturating sum of the squares
    /// of its elements.  This is the loss measure of the engine.
    pub fn magnitude(&self) -> (r: i64)
        ensures
            r as int == mag(self@),
            r >= 0,
    {
        let n = self.elements.len();
        let mut acc: i64 = 0;
        let mut i: usize = 0;
        while i < n
            invariant
                i <= n,
                n == self@.len(),
                n == self.elements@.len(),
                acc as int == mag(self@.take(i as int)),
                acc >= 0,
            decreases n - i,
        {
            let e = self.elements[i];
            proof {
                assert((e as int) * (e as int) >= 0) by (nonlinear_arith);
                assert(self@.take(i + 1).drop_last() =~= self@.take(i as int));
                assert(self@.take(i + 1).last() == self@[i as int]);
            }
            acc = add_fx(acc, mul_fx(e, e));
            i = i + 1;
        }
        proof {
            assert(self@.take(n as int) =~= self@);
        }
        acc
    }
}

} // verus!
