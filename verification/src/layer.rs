//! One dense layer: an affine transform followed by the hard-sigmoid
//! activation, together with the local gradient computations that
//! backpropagation needs.
//!
//! A layer owns a weight matrix (one row per output component, one
//! column per input component), a bias vector (one entry per output
//! component), and the most recently recorded gradient of each, which
//! the in-place update steps consume.

use vstd::prelude::*;

use crate::NetError;
use crate::fixed::{MAX_MAG, SCALE, act, act_deriv, fx_add, fx_mul};
use crate::fixed::{act_fx, add_fx, mul_fx};
use crate::matrix::{Matrix, mscale, msub, outer, outer_product};
use crate::vector::{Vector, in_range, vscale, vsub};

verus! {

/// The saturating dot product of two equal-length sequences,
/// accumulated left to right.
pub open spec fn dot(w: Seq<int>, x: Seq<int>) -> int
    decreases w.len(),
{
    if w.len() == 0 {
        0
    } else {
        fx_add(dot(w.drop_last(), x.drop_last()), fx_mul(w.last(), x.last()))
    }
}

/// The forward pass of one layer: componentwise, the activation of the
/// saturating dot product of a weight row with the input, plus the bias.
pub open spec fn layer_forward(w: Seq<Seq<int>>, b: Seq<int>, x: Seq<int>) -> Seq<int> {
    Seq::new(w.len(), |j: int| act(fx_add(dot(w[j], x), b[j])))
}

/// The saturating dot product of column `i` of `w` with `d`, over the
/// first `k` rows.
pub open spec fn col_dot(w: Seq<Seq<int>>, d: Seq<int>, i: int, k: nat) -> int
    decreases k,
{
    if k == 0 {
        0
    } else {
        fx_add(col_dot(w, d, i, (k - 1) as nat), fx_mul(w[k - 1][i], d[k - 1]))
    }
}

/// The delta a layer propagates upstream: the transposed weight matrix
/// applied to the downstream delta, elementwise-multiplied with the
/// upstream activation derivative `g`.
pub open spec fn back_delta(w: Seq<Seq<int>>, d: Seq<int>, g: Seq<int>) -> Seq<int> {
    Seq::new(g.len(), |i: int| fx_mul(col_dot(w, d, i, w.len()), g[i]))
}

/// One dense layer of the network.
#[derive(Debug)]
pub struct Layer {
    /// The weight matrix: output width many rows, input width many columns.
    pub weights: Matrix,
    /// The bias vector: one entry per output component.
    pub biases: Vector,
    /// The most recently recorded weight gradient, consumed by `update_weights`.
    pub weight_gradient: Matrix,
    /// The most recently recorded bias gradient (the layer's delta),
    /// consumed by `update_biases`.
    pub bias_gradient: Vector,
}

impl Layer {
    /// Shape consistency: the bias length equals the weight row count,
    /// and each recorded gradient has the shape of the parameter it
    /// adjusts.
    pub open spec fn wf(&self) -> bool {
        &&& self.weights.wf()
        &&& self.weight_gradient.wf()
        &&& self.biases@.len() == self.weights.spec_rows()
        &&& self.bias_gradient@.len() == self.weights.spec_rows()
        &&& self.weight_gradient.spec_rows() == self.weights.spec_rows()
        &&& self.weight_gradient.spec_cols() == self.weights.spec_cols()
    }

    /// The input width the layer expects.
    pub open spec fn in_width(&self) -> int {
        self.weights.spec_cols()
    }

    /// The output width the layer produces.
    pub open spec fn out_width(&self) -> int {
        self.weights.spec_rows()
    }

    /// A layer with the given parameters and zeroed gradients;
    /// `ShapeMismatch` exactly when the bias length does not equal the
    /// weight row count.
    pub fn new(weights: Matrix, biases: Vector) -> (res: Result<Layer, NetError>)
        requires
            weights.wf(),
        ensures
            match res {
                Ok(l) => biases@.len() == weights.spec_rows() && l.wf() && l.weights == weights
                    && l.biases == biases,
                Err(e) => biases@.len() != weights.spec_rows() && e == NetError::ShapeMismatch,
            },
    {
        if biases.len() != weights.row_count() {
            return Err(NetError::ShapeMismatch);
        }
        proof {
            weights.lemma_size();
        }
        let rows = weights.row_count();
        let cols = weights.col_count();
        let weight_gradient = Matrix::zeros(rows, cols);
        let bias_gradient = Vector::zeros(rows);
        Ok(Layer { weights, biases, weight_gradient, bias_gradient })
    }

    /// The forward pass `activation(weights . input + biases)`;
    /// `ShapeMismatch` exactly when the input length is not the layer's
    /// input width.  Every output lies in the activation's range
    /// `[0, SCALE]`.
    pub fn forward(&self, input: &Vector) -> (res: Result<Vector, NetError>)
        requires
            self.wf(),
        ensures
            match res {
                Ok(v) => input@.len() == self.in_width() && v@ == layer_forward(
                    self.weights@,
                    self.biases@,
                    input@,
                ) && v@.len() == self.out_width() && (forall|j: int|
                    0 <= j < v@.len() ==> 0 <= #[trigger] v@[j] <= SCALE),
                Err(e) => input@.len() != self.in_width() && e == NetError::ShapeMismatch,
            },
    {
        if input.len() != self.weights.col_count() {
            return Err(NetError::ShapeMismatch);
        }
        proof {
            self.weights.lemma_shape();
        }
        let rows = self.weights.row_count();
        let cols = self.weights.col_count();
        let mut out: Vec<i64> = Vec::new();
        let mut j: usize = 0;
        while j < rows
            invariant
                j <= rows,
                self.wf(),
                rows == self.out_width(),
                cols == self.in_width(),
                input@.len() == cols,
                input@.len() == input.elements@.len(),
                self.weights@.len() == rows,
                forall|r: int|
                    0 <= r < rows ==> (#[trigger] self.weights@[r]).len() == cols,
                self.biases@.len() == rows,
                self.biases@.len() == self.biases.elements@.len(),
                out@.len() == j,
                forall|jj: int|
                    0 <= jj < j ==> #[trigger] out@[jj] as int == act(
                        fx_add(dot(self.weights@[jj], input@), self.biases@[jj]),
                    ),
                forall|jj: int| 0 <= jj < j ==> 0 <= #[trigger] out@[jj] <= SCALE,
            decreases rows - j,
        {
            let mut acc: i64 = 0;
            let mut i: usize = 0;
            while i < cols
                invariant
                    i <= cols,
                    j < rows,
                    self.wf(),
                    rows == self.out_width(),
                    cols == self.in_width(),
                    input@.len() == cols,
                    input@.len() == input.elements@.len(),
                    self.weights@.len() == rows,
                    forall|r: int|
                        0 <= r < rows ==> (#[trigger] self.weights@[r]).len() == cols,
                    acc as int == dot(
                        self.weights@[j as int].take(i as int),
                        input@.take(i as int),
                    ),
                    -MAX_MAG <= acc <= MAX_MAG,
                decreases cols - i,
            {
                let w = self.weights.entry(j, i);
                let x = input.elements[i];
                proof {
                    let row = self.weights@[j as int];
                    assert(row.take(i + 1).drop_last() =~= row.take(i as int));
                    assert(input@.take(i + 1).drop_last() =~= input@.take(i as int));
                    assert(row.take(i + 1).last() == row[i as int]);
                    assert(input@.take(i + 1).last() == input@[i as int]);
                }
                acc = add_fx(acc, mul_fx(w, x));
                i = i + 1;
            }
            proof {
                assert(self.weights@[j as int].take(cols as int) =~= self.weights@[j as int]);
                assert(input@.take(cols as int) =~= input@);
            }
            let z = add_fx(acc, self.biases.elements[j]);
            out.push(act_fx(z));
            j = j + 1;
        }
        let v = Vector { elements: out };
        proof {
            assert(v@ =~= layer_forward(self.weights@, self.biases@, input@));
        }
        Ok(v)
    }

    /// The delta propagated to the upstream layer:
    /// `(weights^T . delta_next)` elementwise-multiplied with the
    /// upstream activation derivative `gradient`.  `ShapeMismatch`
    /// exactly when `delta_next` is not output-width long or `gradient`
    /// is not input-width long.
    pub fn delta(&self, delta_next: &Vector, gradient: &Vector) -> (res: Result<Vector, NetError>)
        requires
            self.wf(),
        ensures
            match res {
                Ok(v) => delta_next@.len() == self.out_width() && gradient@.len()
                    == self.in_width() && v@ == back_delta(self.weights@, delta_next@, gradient@)
                    && v@.len() == self.in_width() && in_range(v@),
                Err(e) => (delta_next@.len() != self.out_width() || gradient@.len()
                    != self.in_width()) && e == NetError::ShapeMismatch,
            },
    {
        if delta_next.len() != self.weights.row_count() || gradient.len()
            != self.weights.col_count() {
            return Err(NetError::ShapeMismatch);
        }
        proof {
            self.weights.lemma_shape();
        }
        let rows = self.weights.row_count();
        let cols = self.weights.col_count();
        let mut out: Vec<i64> = Vec::new();
        let mut i: usize = 0;
        while i < cols
            invariant
                i <= cols,
                self.wf(),
                rows == self.out_width(),
                cols == self.in_width(),
                delta_next@.len() == rows,
                delta_next@.len() == delta_next.elements@.len(),
                gradient@.len() == cols,
                gradient@.len() == gradient.elements@.len(),
                self.weights@.len() == rows,
                forall|r: int|
                    0 <= r < rows ==> (#[trigger] self.weights@[r]).len() == cols,
                out@.len() == i,
                forall|ii: int|
                    0 <= ii < i ==> #[trigger] out@[ii] as int == fx_mul(
                        col_dot(self.weights@, delta_next@, ii, rows as nat),
                        gradient@[ii],
                    ),
                forall|ii: int| 0 <= ii < i ==> -MAX_MAG <= #[trigger] out@[ii] <= MAX_MAG,
            decreases cols - i,
        {
            let mut acc: i64 = 0;
            let mut j: usize = 0;
            while j < rows
                invariant
                    j <= rows,
                    i < cols,
                    self.wf(),
                    rows == self.out_width(),
                    cols == self.in_width(),
                    delta_next@.len() == rows,
                    delta_next@.len() == delta_next.elements@.len(),
                    self.weights@.len() == rows,
                    forall|r: int|
                        0 <= r < rows ==> (#[trigger] self.weights@[r]).len() == cols,
                    acc as int == col_dot(self.weights@, delta_next@, i as int, j as nat),
                    -MAX_MAG <= acc <= MAX_MAG,
                decreases rows - j,
            {
                let w = self.weights.entry(j, i);
                let d = delta_next.elements[j];
                acc = add_fx(acc, mul_fx(w, d));
                j = j + 1;
            }
            out.push(mul_fx(acc, gradient.elements[i]));
            i = i + 1;
        }
        let v = Vector { elements: out };
        proof {
            assert(v@ =~= back_delta(self.weights@, delta_next@, gradient@));
        }
        Ok(v)
    }

    /// The weight-gradient matrix for this layer: the outer product of
    /// the layer's input and its delta.  The cached layer output is
    /// accepted alongside but does not enter the outer-product rule.
    pub fn weight_gradients(&self, input: &Vector, _output: &Vector, delta: &Vector) -> (m: Matrix)
        requires
            delta@.len() * input@.len() <= usize::MAX,
        ensures
            m.wf(),
            m.spec_rows() == delta@.len(),
            m.spec_cols() == input@.len(),
            m@ == outer(input@, delta@),
    {
        outer_product(input, delta)
    }

    /// Record a freshly computed gradient pair for the in-place update
    /// steps; `ShapeMismatch` exactly when a gradient does not have the
    /// shape of the parameter it adjusts, in which case nothing changes.
    pub fn store_gradients(&mut self, weight_gradient: Matrix, bias_gradient: Vector) -> (res:
        Result<(), NetError>)
        requires
            old(self).wf(),
            weight_gradient.wf(),
        ensures
            final(self).weights == old(self).weights,
            final(self).biases == old(self).biases,
            final(self).wf(),
            match res {
                Ok(()) => weight_gradient.spec_rows() == old(self).weights.spec_rows()
                    && weight_gradient.spec_cols() == old(self).weights.spec_cols()
                    && bias_gradient@.len() == old(self).biases@.len()
                    && final(self).weight_gradient == weight_gradient
                    && final(self).bias_gradient == bias_gradient,
                Err(e) => (weight_gradient.spec_rows() != old(self).weights.spec_rows()
                    || weight_gradient.spec_cols() != old(self).weights.spec_cols()
                    || bias_gradient@.len() != old(self).biases@.len()) && e
                    == NetError::ShapeMismatch && *final(self) == *old(self),
            },
    {
        if weight_gradient.row_count() != self.weights.row_count()
            || weight_gradient.col_count() != self.weights.col_count()
            || bias_gradient.len() != self.biases.len() {
            return Err(NetError::ShapeMismatch);
        }
        self.weight_gradient = weight_gradient;
        self.bias_gradient = bias_gradient;
        Ok(())
    }

    /// One in-place gradient-descent step on the weights: subtract
    /// `learning_rate` times the recorded weight gradient.
    pub fn update_weights(&mut self, learning_rate: i64)
        requires
            old(self).wf(),
        ensures
            final(self).wf(),
            final(self).weights@ == msub(
                old(self).weights@,
                mscale(old(self).weight_gradient@, learning_rate as int),
            ),
            final(self).weights.spec_rows() == old(self).weights.spec_rows(),
            final(self).weights.spec_cols() == old(self).weights.spec_cols(),
            final(self).biases == old(self).biases,
            final(self).weight_gradient == old(self).weight_gradient,
            final(self).bias_gradient == old(self).bias_gradient,
    {
        let scaled = self.weight_gradient.scalar_multiply(learning_rate);
        let stepped = self.weights.subtract(&scaled).unwrap();
        self.weights = stepped;
    }

    /// One in-place gradient-descent step on the biases: subtract
    /// `learning_rate` times the recorded bias gradient.
    pub fn update_biases(&mut self, learning_rate: i64)
        requires
            old(self).wf(),
        ensures
            final(self).wf(),
            final(self).biases@ == vsub(
                old(self).biases@,
                vscale(old(self).bias_gradient@, learning_rate as int),
            ),
            final(self).weights == old(self).weights,
            final(self).weight_gradient == old(self).weight_gradient,
            final(self).bias_gradient == old(self).bias_gradient,
    {
        let scaled = self.bias_gradient.scalar_multiply(learning_rate);
        let stepped = self.biases.subtract(&scaled).unwrap();
        self.biases = stepped;
    }
}

impl Clone for Layer {
    /// An exact copy of all four components.
    fn clone(&self) -> (r: Self)
        ensures
            r.weights@ == self.weights@,
            r.biases@ == self.biases@,
            r.weight_gradient@ == self.weight_gradient@,
            r.bias_gradient@ == self.bias_gradient@,
            r.weights.spec_rows() == self.weights.spec_rows(),
            r.weights.spec_cols() == self.weights.spec_cols(),
            r.weight_gradient.spec_rows() == self.weight_gradient.spec_rows(),
            r.weight_gradient.spec_cols() == self.weight_gradient.spec_cols(),
            r.wf() == self.wf(),
    {
        Layer {
            weights: self.weights.clone(),
            biases: self.biases.clone(),
            weight_gradient: self.weight_gradient.clone(),
            bias_gradient: self.bias_gradient.clone(),
        }
    }
}

/// The componentwise activation derivative `o * (1 - o)`, evaluated at a
/// layer's output vector, as backpropagation uses it.
pub open spec fn deriv_vec(o: Seq<int>) -> Seq<int> {
    Seq::new(o.len(), |i: int| act_deriv(o[i]))
}

/// The componentwise activation derivative of an output vector.
pub fn activation_derivative(output: &Vector) -> (v: Vector)
    ensures
        v@ == deriv_vec(output@),
        v@.len() == output@.len(),
        in_range(v@),
{
    let n = output.len();
    let mut out: Vec<i64> = Vec::new();
    let mut i: usize = 0;
    while i < n
        invariant
            i <= n,
            n == output@.len(),
            n == output.elements@.len(),
            out@.len() == i,
            forall|j: int|
                0 <= j < i ==> #[trigger] out@[j] as int == act_deriv(output@[j]),
            forall|j: int| 0 <= j < i ==> -MAX_MAG <= #[trigger] out@[j] <= MAX_MAG,
        decreases n - i,
    {
        out.push(crate::fixed::act_deriv_fx(output.elements[i]));
        i = i + 1;
    }
    let v = Vector { elements: out };
    proof {
        assert(v@ =~= deriv_vec(output@));
    }
    v
}

} // verus!
