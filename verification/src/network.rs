//! A feedforward network: an ordered stack of dense layers.
//!
//! `forward` applies every layer in order; `backward` runs a cached
//! forward pass, forms the output error and delta, walks the stack in
//! reverse propagating deltas and collecting per-layer weight gradients,
//! and returns the saturating sum of all weight gradients and of all
//! deltas as one aggregate pair.  `update` applies such an aggregate
//! pair to the first layer's parameters.  Training loops repeat
//! `backward` and `update` and track loss and accuracy.
//!
//! Summing every layer's gradient into a single pair that adjusts only
//! the first layer is a deliberate simplification of this engine, kept
//! as designed; `update_weights` and `update_biases` offer the
//! per-layer alternative over each layer's own recorded gradient.

use vstd::prelude::*;
use vstd::pervasive::VecAdditionalExecFns;

use crate::NetError;
use crate::fixed::{HALF, MAX_MAG, SCALE, fx_add};
use crate::fixed::add_fx;
use crate::layer::{Layer, back_delta, deriv_vec, layer_forward};
use crate::layer::activation_derivative;
use crate::matrix::{Matrix, madd, mscale, msub, outer, outer_product};
use crate::vector::{Vector, vadd, vmul, vscale, vsub, mag};

verus! {

/// An input of length `n` flows through every layer of `ls`: each layer
/// expects exactly the width the previous one produces.
pub open spec fn chain_ok(ls: Seq<Layer>, n: nat) -> bool
    decreases ls.len(),
{
    if ls.len() == 0 {
        true
    } else {
        ls[0].in_width() == n && chain_ok(ls.drop_first(), ls[0].out_width() as nat)
    }
}

/// The full forward pass: every layer applied in order.
pub open spec fn net_forward(ls: Seq<Layer>, x: Seq<int>) -> Seq<int>
    decreases ls.len(),
{
    if ls.len() == 0 {
        x
    } else {
        net_forward(ls.drop_first(), layer_forward(ls[0].weights@, ls[0].biases@, x))
    }
}

/// The intermediate activation after the first `k` layers; `out_k(ls, x, 0)`
/// is the input itself.
pub open spec fn out_k(ls: Seq<Layer>, x: Seq<int>, k: nat) -> Seq<int>
    decreases k,
{
    if k == 0 {
        x
    } else {
        layer_forward(ls[k - 1].weights@, ls[k - 1].biases@, out_k(ls, x, (k - 1) as nat))
    }
}

/// Every layer's weight matrix has the shape of the first layer's, the
/// condition under which the per-layer gradients can be summed into one
/// aggregate.
pub open spec fn uniform_shapes(ls: Seq<Layer>) -> bool {
    forall|k: int|
        0 <= k < ls.len() ==> (#[trigger] ls[k]).weights.spec_rows() == ls[0].weights.spec_rows()
            && ls[k].weights.spec_cols() == ls[0].weights.spec_cols()
}

/// The delta of layer `k` in a backward pass from input `x` and target
/// `t`: at the last layer the output error times the activation
/// derivative, upstream of it the propagated delta of the next layer.
pub open spec fn delta_at(ls: Seq<Layer>, x: Seq<int>, t: Seq<int>, k: nat) -> Seq<int>
    decreases ls.len() - k,
    when k < ls.len()
{
    if k + 1 == ls.len() {
        vmul(vsub(out_k(ls, x, ls.len()), t), deriv_vec(out_k(ls, x, ls.len())))
    } else {
        back_delta(
            ls[k as int + 1].weights@,
            delta_at(ls, x, t, (k + 1) as nat),
            deriv_vec(out_k(ls, x, (k + 1) as nat)),
        )
    }
}

/// The weight gradient of layer `k` in a backward pass: the outer
/// product of the layer's input and its delta.
pub open spec fn wg_at(ls: Seq<Layer>, x: Seq<int>, t: Seq<int>, k: nat) -> Seq<Seq<int>> {
    outer(out_k(ls, x, k), delta_at(ls, x, t, k))
}

/// A `rows` by `cols` grid of zeros.
pub open spec fn zero_grid(rows: nat, cols: nat) -> Seq<Seq<int>> {
    Seq::new(rows, |r: int| Seq::new(cols, |c: int| 0int))
}

/// A sequence of `n` zeros.
pub open spec fn zero_vec(n: nat) -> Seq<int> {
    Seq::new(n, |i: int| 0int)
}

/// The aggregate weight gradient after the backward pass has summed the
/// `m` gradients it collects first: those of layers `len-1` down to
/// `len-m`, added in that order onto a zero grid of the first layer's
/// shape.
pub open spec fn total_wg_at(ls: Seq<Layer>, x: Seq<int>, t: Seq<int>, m: nat) -> Seq<Seq<int>>
    decreases m,
    when m <= ls.len() && ls.len() > 0
{
    if m == 0 {
        zero_grid(ls[0].weights.spec_rows() as nat, ls[0].weights.spec_cols() as nat)
    } else {
        madd(total_wg_at(ls, x, t, (m - 1) as nat), wg_at(ls, x, t, (ls.len() - m) as nat))
    }
}

/// The aggregate delta after the backward pass has summed its first `m`
/// deltas, in collection order, onto a zero vector of the first layer's
/// output width.
pub open spec fn total_delta_at(ls: Seq<Layer>, x: Seq<int>, t: Seq<int>, m: nat) -> Seq<int>
    decreases m,
    when m <= ls.len() && ls.len() > 0
{
    if m == 0 {
        zero_vec(ls[0].weights.spec_rows() as nat)
    } else {
        vadd(total_delta_at(ls, x, t, (m - 1) as nat), delta_at(ls, x, t, (ls.len() - m) as nat))
    }
}

/// The condition under which a backward pass succeeds: the input chains
/// through the stack, the target has the width of the final output, and
/// the per-layer gradients share the first layer's shape so they can be
/// summed.
pub open spec fn backward_ok(ls: Seq<Layer>, x: Seq<int>, t: Seq<int>) -> bool {
    &&& chain_ok(ls, x.len())
    &&& t.len() == ls[ls.len() - 1].out_width()
    &&& uniform_shapes(ls)
}

/// Under a chained stack of well-formed layers, the activation after
/// `k` layers still chains through the rest, and its width matches the
/// neighbouring layers.
proof fn lemma_chain_at(ls: Seq<Layer>, x: Seq<int>, k: nat)
    requires
        chain_ok(ls, x.len()),
        forall|i: int| 0 <= i < ls.len() ==> (#[trigger] ls[i]).wf(),
        k <= ls.len(),
    ensures
        chain_ok(ls.skip(k as int), out_k(ls, x, k).len() as nat),
        k < ls.len() ==> out_k(ls, x, k).len() == ls[k as int].in_width(),
        k > 0 ==> out_k(ls, x, k).len() == ls[k as int - 1].out_width(),
    decreases k,
{
    if k == 0 {
        assert(ls.skip(0) =~= ls);
        if ls.len() > 0 {
            assert(ls[0].in_width() == x.len());
        }
    } else {
        lemma_chain_at(ls, x, (k - 1) as nat);
        assert(ls.skip(k as int - 1).drop_first() =~= ls.skip(k as int));
        assert(ls.skip(k as int - 1)[0] == ls[k as int - 1]);
        ls[k as int - 1].weights.lemma_shape();
        assert(out_k(ls, x, k).len() == ls[k as int - 1].weights@.len());
        if k < ls.len() {
            assert(ls.skip(k as int)[0] == ls[k as int]);
        }
    }
}

/// The delta of layer `k` has the layer's output width.
proof fn lemma_delta_len(ls: Seq<Layer>, x: Seq<int>, t: Seq<int>, k: nat)
    requires
        chain_ok(ls, x.len()),
        forall|i: int| 0 <= i < ls.len() ==> (#[trigger] ls[i]).wf(),
        k < ls.len(),
    ensures
        delta_at(ls, x, t, k).len() == ls[k as int].out_width(),
    decreases ls.len() - k,
{
    if k + 1 == ls.len() {
        lemma_chain_at(ls, x, ls.len());
    } else {
        lemma_chain_at(ls, x, (k + 1) as nat);
    }
}

/// A forward pass on an input of length `n` reaches the end of the
/// stack and meets a target of matching width, the condition under
/// which `loss` and `accuracy` succeed.
pub open spec fn pair_ok(ls: Seq<Layer>, x: Seq<int>, t: Seq<int>) -> bool {
    chain_ok(ls, x.len()) && t.len() == net_forward(ls, x).len()
}

/// Every pair of a batch satisfies `pair_ok`.
pub open spec fn batch_all_ok(ls: Seq<Layer>, ins: Seq<Vector>, ts: Seq<Vector>) -> bool {
    forall|i: int| 0 <= i < ins.len() ==> pair_ok(ls, (#[trigger] ins[i])@, ts[i]@)
}

/// The number of components of `e` whose magnitude is below one half,
/// the componentwise correctness count behind `accuracy`.
pub open spec fn count_close(e: Seq<int>) -> int
    decreases e.len(),
{
    if e.len() == 0 {
        0
    } else {
        count_close(e.drop_last()) + if -HALF < e.last() < HALF {
            1int
        } else {
            0int
        }
    }
}

/// The loss of one pair: the squared norm of `prediction - target`.
pub open spec fn loss_of(ls: Seq<Layer>, x: Seq<int>, t: Seq<int>) -> int {
    mag(vsub(net_forward(ls, x), t))
}

/// The accuracy of one pair: the fraction of output components whose
/// absolute error is below one half, as a fixed-point fraction of
/// `SCALE`.
pub open spec fn acc_of(ls: Seq<Layer>, x: Seq<int>, t: Seq<int>) -> int {
    (count_close(vsub(net_forward(ls, x), t)) * SCALE) / t.len() as int
}

/// The saturating sum of the losses of the first `k` pairs.
pub open spec fn total_loss_at(ls: Seq<Layer>, ins: Seq<Vector>, ts: Seq<Vector>, k: nat) -> int
    decreases k,
{
    if k == 0 {
        0
    } else {
        fx_add(total_loss_at(ls, ins, ts, (k - 1) as nat), loss_of(ls, ins[k - 1]@, ts[k - 1]@))
    }
}

/// The saturating sum of the accuracies of the first `k` pairs.
pub open spec fn total_acc_at(ls: Seq<Layer>, ins: Seq<Vector>, ts: Seq<Vector>, k: nat) -> int
    decreases k,
{
    if k == 0 {
        0
    } else {
        fx_add(total_acc_at(ls, ins, ts, (k - 1) as nat), acc_of(ls, ins[k - 1]@, ts[k - 1]@))
    }
}

/// Applying one layer and then the rest is the same as taking one more
/// step of `out_k` on the whole stack.
proof fn lemma_out_k_shift(ls: Seq<Layer>, x: Seq<int>, k: nat)
    requires
        1 <= k <= ls.len(),
    ensures
        out_k(ls, x, k) == out_k(
            ls.drop_first(),
            layer_forward(ls[0].weights@, ls[0].biases@, x),
            (k - 1) as nat,
        ),
    decreases k,
{
    let y = layer_forward(ls[0].weights@, ls[0].biases@, x);
    if k == 1 {
        assert(out_k(ls, x, 1) == layer_forward(ls[0].weights@, ls[0].biases@, out_k(ls, x, 0)));
        assert(out_k(ls.drop_first(), y, 0) == y);
    } else {
        lemma_out_k_shift(ls, x, (k - 1) as nat);
        assert(ls.drop_first()[k - 2] == ls[k - 1]);
        assert(out_k(ls, x, k) == layer_forward(
            ls[k - 1].weights@,
            ls[k - 1].biases@,
            out_k(ls, x, (k - 1) as nat),
        ));
        assert(out_k(ls.drop_first(), y, (k - 1) as nat) == layer_forward(
            ls.drop_first()[k - 2].weights@,
            ls.drop_first()[k - 2].biases@,
            out_k(ls.drop_first(), y, (k - 2) as nat),
        ));
    }
}

/// The full forward pass equals the activation after all layers.
pub proof fn lemma_net_forward_out_k(ls: Seq<Layer>, x: Seq<int>)
    ensures
        net_forward(ls, x) == out_k(ls, x, ls.len()),
    decreases ls.len(),
{
    if ls.len() > 0 {
        let y = layer_forward(ls[0].weights@, ls[0].biases@, x);
        lemma_net_forward_out_k(ls.drop_first(), y);
        lemma_out_k_shift(ls, x, ls.len());
    }
}

/// Two stacks of identical shapes accept exactly the same input widths.
proof fn lemma_chain_same_shapes(a: Seq<Layer>, b: Seq<Layer>, n: nat)
    requires
        a.len() == b.len(),
        forall|i: int|
            0 <= i < a.len() ==> (#[trigger] a[i]).weights.spec_rows() == b[i].weights.spec_rows()
                && a[i].weights.spec_cols() == b[i].weights.spec_cols(),
    ensures
        chain_ok(a, n) == chain_ok(b, n),
    decreases a.len(),
{
    if a.len() > 0 {
        assert forall|i: int|
            0 <= i < a.drop_first().len() implies (#[trigger] a.drop_first()[i]).weights.spec_rows()
            == b.drop_first()[i].weights.spec_rows() && a.drop_first()[i].weights.spec_cols()
            == b.drop_first()[i].weights.spec_cols() by {
            assert(a.drop_first()[i] == a[i + 1]);
            assert(b.drop_first()[i] == b[i + 1]);
        }
        lemma_chain_same_shapes(a.drop_first(), b.drop_first(), a[0].out_width() as nat);
    }
}

/// The learning rate `train` applies, one tenth in fixed point.
pub const LEARNING_RATE: i64 = 6554;

/// Why a convergence training loop came to rest: the loss improvement
/// fell within tolerance, the epoch budget ran out, or the validation
/// loss stagnated for a full patience window.
#[derive(Clone, Copy, Debug, PartialEq, Eq, Structural)]
pub enum StopReason {
    Converged,
    MaxEpochsReached,
    EarlyStopped,
}

/// Two stacks have the same length and, position by position, the same
/// weight shape and bias length.  Training steps never change shapes,
/// only values.
pub open spec fn same_shapes(a: Seq<Layer>, b: Seq<Layer>) -> bool {
    &&& a.len() == b.len()
    &&& forall|i: int|
        0 <= i < a.len() ==> (#[trigger] a[i]).weights.spec_rows() == b[i].weights.spec_rows()
            && a[i].weights.spec_cols() == b[i].weights.spec_cols() && a[i].biases@.len()
            == b[i].biases@.len()
}

/// One training step from `pre` to `post` on the pair `(x, t)`: a
/// backward pass whose aggregate gradient pair moves the first layer's
/// parameters against the gradient by `lr`, all other layers untouched.
pub open spec fn step_rel(pre: Seq<Layer>, post: Seq<Layer>, x: Seq<int>, t: Seq<int>, lr: int) -> bool {
    &&& pre.len() > 0
    &&& post.len() == pre.len()
    &&& backward_ok(pre, x, t)
    &&& post[0].weights@ == msub(
        pre[0].weights@,
        mscale(total_wg_at(pre, x, t, pre.len()), lr),
    )
    &&& post[0].biases@ == vsub(
        pre[0].biases@,
        vscale(total_delta_at(pre, x, t, pre.len()), lr),
    )
    &&& post[0].weights.spec_rows() == pre[0].weights.spec_rows()
    &&& post[0].weights.spec_cols() == pre[0].weights.spec_cols()
    &&& forall|i: int| 1 <= i < pre.len() ==> post[i] == pre[i]
}

/// `states` is the run of stacks an epoch passes through: one training
/// step per pair of the batch, in order.
pub open spec fn epoch_trace(
    states: Seq<Seq<Layer>>,
    ins: Seq<Vector>,
    ts: Seq<Vector>,
    lr: int,
) -> bool {
    &&& states.len() == ins.len() + 1
    &&& forall|j: int|
        0 <= j < ins.len() ==> step_rel(states[j], states[j + 1], (#[trigger] ins[j])@, ts[j]@, lr)
}

/// One full epoch leads from `pre` to `post`: some run of stacks
/// starts at `pre`, ends at `post`, and advances by one training step
/// per pair of the batch, in order.
pub open spec fn epoch_passed(
    pre: Seq<Layer>,
    post: Seq<Layer>,
    ins: Seq<Vector>,
    ts: Seq<Vector>,
    lr: int,
) -> bool {
    exists|states: Seq<Seq<Layer>>|
        #[trigger] epoch_trace(states, ins, ts, lr) && states[0] == pre && states[ins.len() as int]
            == post
}

/// `states` is the run of stacks a shuffled pass visits: one training
/// step per entry of `order`, each on the pair that entry names.
pub open spec fn order_trace(
    states: Seq<Seq<Layer>>,
    ins: Seq<Vector>,
    ts: Seq<Vector>,
    order: Seq<usize>,
    lr: int,
) -> bool {
    &&& states.len() == order.len() + 1
    &&& forall|j: int|
        0 <= j < order.len() ==> step_rel(
            states[j],
            states[j + 1],
            ins[(#[trigger] order[j]) as int]@,
            ts[order[j] as int]@,
            lr,
        )
}

/// One shuffled pass leads from `pre` to `post` along `order`.
pub open spec fn minibatch_passed(
    pre: Seq<Layer>,
    post: Seq<Layer>,
    ins: Seq<Vector>,
    ts: Seq<Vector>,
    order: Seq<usize>,
    lr: int,
) -> bool {
    exists|states: Seq<Seq<Layer>>|
        #[trigger] order_trace(states, ins, ts, order, lr) && states[0] == pre && states[order.len() as int]
            == post
}

/// `states` is the run of stacks `train` passes through: every step is
/// one backward pass and one aggregate update on the same single pair.
pub open spec fn repeat_trace(
    states: Seq<Seq<Layer>>,
    x: Seq<int>,
    t: Seq<int>,
    lr: int,
    steps: nat,
) -> bool {
    &&& states.len() == steps + 1
    &&& forall|j: int|
        0 <= j < steps ==> step_rel(#[trigger] states[j], states[j + 1], x, t, lr)
}

/// The saturating sum of the pair's loss over the `k` stacks that
/// follow position `base` in a run.
pub open spec fn span_loss_sum(
    states: Seq<Seq<Layer>>,
    x: Seq<int>,
    t: Seq<int>,
    base: int,
    k: nat,
) -> int
    decreases k,
{
    if k == 0 {
        0
    } else {
        fx_add(
            span_loss_sum(states, x, t, base, (k - 1) as nat),
            loss_of(states[base + k], x, t),
        )
    }
}

/// The saturating sum of the pair's accuracy over the `k` stacks that
/// follow position `base` in a run.
pub open spec fn span_acc_sum(
    states: Seq<Seq<Layer>>,
    x: Seq<int>,
    t: Seq<int>,
    base: int,
    k: nat,
) -> int
    decreases k,
{
    if k == 0 {
        0
    } else {
        fx_add(span_acc_sum(states, x, t, base, (k - 1) as nat), acc_of(states[base + k], x, t))
    }
}

/// The mean loss of a batch on the stack `ls`, as `evaluate` and
/// `loss_batch` report it.
pub open spec fn mean_loss(ls: Seq<Layer>, ins: Seq<Vector>, ts: Seq<Vector>) -> int {
    total_loss_at(ls, ins, ts, ins.len()) / ins.len() as int
}

/// The absolute difference of two losses.
pub open spec fn diff_of(a: int, b: int) -> int {
    if a >= b {
        a - b
    } else {
        b - a
    }
}

/// The loss a convergence loop compares against before epoch `e` of a
/// run: the previous epoch's mean loss, or the largest scalar before
/// any epoch has run.
pub open spec fn prev_loss_of(sts: Seq<Seq<Layer>>, e: int, ins: Seq<Vector>, ts: Seq<Vector>) -> int {
    if e == 0 {
        MAX_MAG as int
    } else {
        mean_loss(sts[e - 1], ins, ts)
    }
}

/// The early-stopping bookkeeping after `e` epochs of a run: the best
/// validation loss seen so far and the number of consecutive epochs
/// without improvement.
pub open spec fn stop_state(
    sts: Seq<Seq<Layer>>,
    vins: Seq<Vector>,
    vts: Seq<Vector>,
    e: nat,
) -> (int, int)
    decreases e,
{
    if e == 0 {
        (mean_loss(sts[0], vins, vts), 0)
    } else {
        let prev = stop_state(sts, vins, vts, (e - 1) as nat);
        let vl = mean_loss(sts[e as int], vins, vts);
        if vl < prev.0 {
            (vl, 0)
        } else {
            (prev.0, prev.1 + 1)
        }
    }
}

/// Extending a run does not change the early-stopping bookkeeping over
/// its existing epochs.
proof fn lemma_stop_state_push(
    sts: Seq<Seq<Layer>>,
    z: Seq<Layer>,
    vins: Seq<Vector>,
    vts: Seq<Vector>,
    e: nat,
)
    requires
        e < sts.len(),
    ensures
        stop_state(sts.push(z), vins, vts, e) == stop_state(sts, vins, vts, e),
    decreases e,
{
    if e > 0 {
        lemma_stop_state_push(sts, z, vins, vts, (e - 1) as nat);
        assert(sts.push(z)[e as int] == sts[e as int]);
    } else {
        assert(sts.push(z)[0] == sts[0]);
    }
}

/// Both batches of an early-stopping run fit the stack: the training
/// pairs train and evaluate, and the validation pairs evaluate.
pub open spec fn es_batches_ok(
    ls: Seq<Layer>,
    ins: Seq<Vector>,
    ts: Seq<Vector>,
    vins: Seq<Vector>,
    vts: Seq<Vector>,
) -> bool {
    &&& batch_all_ok(ls, ins, ts)
    &&& batch_all_ok(ls, vins, vts)
    &&& forall|i: int|
        0 <= i < ins.len() ==> backward_ok(ls, (#[trigger] ins[i])@, ts[i]@)
}

/// Stacks of the same well-formed shapes fit the same batches.
proof fn lemma_es_batches_ok_same_shapes(
    a: Seq<Layer>,
    b: Seq<Layer>,
    ins: Seq<Vector>,
    ts: Seq<Vector>,
    vins: Seq<Vector>,
    vts: Seq<Vector>,
)
    requires
        same_shapes(a, b),
        a.len() > 0,
        forall|i: int| 0 <= i < a.len() ==> (#[trigger] a[i]).wf(),
        forall|i: int| 0 <= i < b.len() ==> (#[trigger] b[i]).wf(),
    ensures
        es_batches_ok(a, ins, ts, vins, vts) == es_batches_ok(b, ins, ts, vins, vts),
{
    assert forall|i: int|
        0 <= i < ins.len() implies pair_ok(a, (#[trigger] ins[i])@, ts[i]@) == pair_ok(
        b,
        ins[i]@,
        ts[i]@,
    ) && backward_ok(a, ins[i]@, ts[i]@) == backward_ok(b, ins[i]@, ts[i]@) by {
        lemma_pair_ok_same_shapes(a, b, ins[i]@, ts[i]@);
        lemma_backward_ok_same_shapes(a, b, ins[i]@, ts[i]@);
    }
    assert forall|i: int|
        0 <= i < vins.len() implies pair_ok(a, (#[trigger] vins[i])@, vts[i]@) == pair_ok(
        b,
        vins[i]@,
        vts[i]@,
    ) by {
        lemma_pair_ok_same_shapes(a, b, vins[i]@, vts[i]@);
    }
}

/// Stacks of the same shapes succeed on exactly the same pairs.
proof fn lemma_backward_ok_same_shapes(a: Seq<Layer>, b: Seq<Layer>, x: Seq<int>, t: Seq<int>)
    requires
        same_shapes(a, b),
        a.len() > 0,
    ensures
        backward_ok(a, x, t) == backward_ok(b, x, t),
{
    lemma_chain_same_shapes(a, b, x.len());
    if uniform_shapes(a) {
        assert forall|k: int|
            0 <= k < b.len() implies (#[trigger] b[k]).weights.spec_rows()
            == b[0].weights.spec_rows() && b[k].weights.spec_cols()
            == b[0].weights.spec_cols() by {
            assert(a[k].weights.spec_rows() == a[0].weights.spec_rows() && a[k].weights.spec_cols()
                == a[0].weights.spec_cols());
        }
    }
    if uniform_shapes(b) {
        assert forall|k: int|
            0 <= k < a.len() implies (#[trigger] a[k]).weights.spec_rows()
            == a[0].weights.spec_rows() && a[k].weights.spec_cols()
            == a[0].weights.spec_cols() by {
            assert(b[k].weights.spec_rows() == b[0].weights.spec_rows() && b[k].weights.spec_cols()
                == b[0].weights.spec_cols());
        }
    }
}

/// Stacks of the same well-formed shapes accept exactly the same
/// evaluation pairs.
proof fn lemma_pair_ok_same_shapes(a: Seq<Layer>, b: Seq<Layer>, x: Seq<int>, t: Seq<int>)
    requires
        same_shapes(a, b),
        forall|i: int| 0 <= i < a.len() ==> (#[trigger] a[i]).wf(),
        forall|i: int| 0 <= i < b.len() ==> (#[trigger] b[i]).wf(),
    ensures
        pair_ok(a, x, t) == pair_ok(b, x, t),
{
    lemma_chain_same_shapes(a, b, x.len());
    if chain_ok(a, x.len()) {
        lemma_net_forward_out_k(a, x);
        lemma_net_forward_out_k(b, x);
        lemma_chain_at(a, x, a.len());
        lemma_chain_at(b, x, b.len());
        if a.len() == 0 {
        } else {
            assert(net_forward(a, x).len() == a[a.len() - 1].out_width());
            assert(net_forward(b, x).len() == b[b.len() - 1].out_width());
        }
    }
}

/// A pair on which the backward pass succeeds is also a pair on which
/// evaluation succeeds.
proof fn lemma_backward_ok_pair_ok(ls: Seq<Layer>, x: Seq<int>, t: Seq<int>)
    requires
        forall|i: int| 0 <= i < ls.len() ==> (#[trigger] ls[i]).wf(),
        ls.len() > 0,
        backward_ok(ls, x, t),
    ensures
        pair_ok(ls, x, t),
{
    lemma_net_forward_out_k(ls, x);
    lemma_chain_at(ls, x, ls.len());
}

/// An ordered stack of dense layers; the network owns its layers.
#[derive(Debug)]
pub struct Network {
    pub layers: Vec<Layer>,
}

impl Network {
    /// Every layer is internally shape-consistent.
    pub open spec fn wf(&self) -> bool {
        forall|i: int| 0 <= i < self.layers@.len() ==> (#[trigger] self.layers@[i]).wf()
    }

    /// A network over the given layer stack.
    pub fn new(layers: Vec<Layer>) -> (n: Network)
        ensures
            n.layers == layers,
    {
        Network { layers }
    }

    /// The full forward pass; `ShapeMismatch` exactly when the input
    /// width fails to chain through the stack.
    #[verifier::loop_isolation(false)]
    pub fn forward(&self, input: Vector) -> (res: Result<Vector, NetError>)
        requires
            self.wf(),
        ensures
            match res {
                Ok(v) => chain_ok(self.layers@, input@.len()) && v@ == net_forward(
                    self.layers@,
                    input@,
                ) && (self.layers@.len() > 0 ==> forall|j: int|
                    0 <= j < v@.len() ==> 0 <= #[trigger] v@[j] <= SCALE),
                Err(e) => !chain_ok(self.layers@, input@.len()) && e == NetError::ShapeMismatch,
            },
    {
        let ghost ls = self.layers@;
        let ghost gx = input@;
        proof {
            assert(ls.skip(0) =~= ls);
        }
        let n = self.layers.len();
        let mut cur = input;
        let mut i: usize = 0;
        while i < n
            invariant
                i <= n,
                n == ls.len(),
                self.wf(),
                ls == self.layers@,
                net_forward(ls.skip(i as int), cur@) == net_forward(ls, gx),
                chain_ok(ls.skip(i as int), cur@.len()) <==> chain_ok(ls, gx.len()),
                i > 0 ==> forall|j: int| 0 <= j < cur@.len() ==> 0 <= #[trigger] cur@[j] <= SCALE,
            decreases n - i,
        {
            proof {
                assert(ls.skip(i as int).drop_first() =~= ls.skip(i + 1));
                assert(ls.skip(i as int)[0] == ls[i as int]);
            }
            match self.layers[i].forward(&cur) {
                Ok(v) => {
                    cur = v;
                },
                Err(_) => {
                    proof {
                        assert(!chain_ok(ls.skip(i as int), cur@.len()));
                        assert(!chain_ok(ls, gx.len()));
                    }
                    return Err(NetError::ShapeMismatch);
                },
            }
            i = i + 1;
        }
        proof {
            assert(ls.skip(n as int) =~= Seq::<Layer>::empty());
        }
        Ok(cur)
    }

    /// One backward pass: a cached forward pass, the output error
    /// `prediction - target` turned into an output delta through the
    /// activation derivative, deltas propagated in reverse through the
    /// stack with a weight gradient collected per layer, and the
    /// saturating sums of all weight gradients and of all deltas
    /// returned as one aggregate pair of the first layer's shape.
    /// `ShapeMismatch` exactly when the input fails to chain, the
    /// target does not match the output width, or the layers' shapes
    /// cannot be summed.
    #[verifier::loop_isolation(false)]
    #[verifier::rlimit(100)]
    pub fn backward(&self, input: Vector, target: Vector) -> (res: Result<
        (Matrix, Vector),
        NetError,
    >)
        requires
            self.wf(),
            self.layers@.len() > 0,
        ensures
            match res {
                Ok(p) => {
                    &&& backward_ok(self.layers@, input@, target@)
                    &&& p.0.wf()
                    &&& p.0.spec_rows() == self.layers@[0].weights.spec_rows()
                    &&& p.0.spec_cols() == self.layers@[0].weights.spec_cols()
                    &&& p.0@ == total_wg_at(self.layers@, input@, target@, self.layers@.len())
                    &&& p.1@ == total_delta_at(self.layers@, input@, target@, self.layers@.len())
                    &&& p.1@.len() == self.layers@[0].weights.spec_rows()
                },
                Err(e) => {
                    &&& !backward_ok(self.layers@, input@, target@)
                    &&& e == NetError::ShapeMismatch
                },
            },
    {
        let ghost ls = self.layers@;
        let ghost gx = input@;
        let ghost gt = target@;
        let n = self.layers.len();

        // Forward pass, caching the input and every layer output.
        let mut outputs: Vec<Vector> = Vec::new();
        outputs.push(input);
        proof {
            assert(ls.skip(0) =~= ls);
        }
        let mut i: usize = 0;
        while i < n
            invariant
                i <= n,
                outputs@.len() == i + 1,
                forall|k: int|
                    0 <= k <= i ==> #[trigger] outputs@[k]@ == out_k(ls, gx, k as nat),
                chain_ok(ls.skip(i as int), outputs@[i as int]@.len() as nat) <==> chain_ok(
                    ls,
                    gx.len(),
                ),
            decreases n - i,
        {
            proof {
                assert(ls.skip(i as int).drop_first() =~= ls.skip(i + 1));
                assert(ls.skip(i as int)[0] == ls[i as int]);
            }
            match self.layers[i].forward(&outputs[i]) {
                Ok(v) => {
                    outputs.push(v);
                },
                Err(_) => {
                    proof {
                        assert(!chain_ok(ls.skip(i as int), outputs@[i as int]@.len() as nat));
                        assert(!chain_ok(ls, gx.len()));
                    }
                    return Err(NetError::ShapeMismatch);
                },
            }
            i = i + 1;
        }
        proof {
            assert(ls.skip(n as int) =~= Seq::<Layer>::empty());
            assert(chain_ok(ls, gx.len()));
            lemma_chain_at(ls, gx, n as nat);
        }

        // Output error and output-layer delta.
        let error = match outputs[n].subtract(&target) {
            Ok(v) => v,
            Err(_) => {
                return Err(NetError::ShapeMismatch);
            },
        };
        let gradient = activation_derivative(&outputs[n]);
        let delta0 = error.elementwise_multiply(&gradient).unwrap();
        proof {
            assert(delta0@ == delta_at(ls, gx, gt, (n - 1) as nat));
            lemma_chain_at(ls, gx, (n - 1) as nat);
            lemma_delta_len(ls, gx, gt, (n - 1) as nat);
            ls[n - 1].weights.lemma_size();
        }
        let mut deltas: Vec<Vector> = Vec::new();
        deltas.push(delta0);

        // Weight gradient of the output layer.
        let wg0 = outer_product(&outputs[n - 1], &deltas[0]);
        let mut wgs: Vec<Matrix> = Vec::new();
        proof {
            assert(wg0@ == wg_at(ls, gx, gt, (n - 1) as nat));
        }
        wgs.push(wg0);

        // Reverse pass through the remaining layers.
        let mut rev: usize = n;
        while rev > 1
            invariant
                1 <= rev <= n,
                deltas@.len() == n - rev + 1,
                wgs@.len() == n - rev + 1,
                forall|m: int|
                    0 <= m < deltas@.len() ==> #[trigger] deltas@[m]@ == delta_at(
                        ls,
                        gx,
                        gt,
                        (n - 1 - m) as nat,
                    ),
                forall|m: int|
                    0 <= m < wgs@.len() ==> #[trigger] wgs@[m]@ == wg_at(
                        ls,
                        gx,
                        gt,
                        (n - 1 - m) as nat,
                    ),
                forall|m: int|
                    0 <= m < wgs@.len() ==> (#[trigger] wgs@[m]).wf() && wgs@[m].spec_rows()
                        == ls[n - 1 - m].weights.spec_rows() && wgs@[m].spec_cols() == ls[n - 1
                        - m].weights.spec_cols(),
            decreases rev,
        {
            let li = rev - 1;
            let g = activation_derivative(&outputs[li]);
            proof {
                lemma_chain_at(ls, gx, li as nat);
                lemma_delta_len(ls, gx, gt, li as nat);
            }
            let last_idx = deltas.len() - 1;
            let nd = self.layers[li].delta(&deltas[last_idx], &g).unwrap();
            proof {
                assert(nd@ == delta_at(ls, gx, gt, (li - 1) as nat));
                lemma_chain_at(ls, gx, (li - 1) as nat);
                lemma_delta_len(ls, gx, gt, (li - 1) as nat);
                ls[li - 1].weights.lemma_size();
            }
            deltas.push(nd);
            let dlast = deltas.len() - 1;
            let nw = self.layers[li].weight_gradients(&outputs[li - 1], &outputs[li], &deltas[dlast]);
            proof {
                assert(nw@ == wg_at(ls, gx, gt, (li - 1) as nat));
            }
            wgs.push(nw);
            rev = li;
        }

        // Sum the weight gradients onto a zero grid of the first
        // layer's shape.
        proof {
            ls[0].weights.lemma_size();
        }
        let rows0 = self.layers[0].weights.row_count();
        let cols0 = self.layers[0].weights.col_count();
        let mut total_w = Matrix::zeros(rows0, cols0);
        proof {
            total_w.lemma_shape();
            assert(total_w@ =~~= zero_grid(rows0 as nat, cols0 as nat));
            assert(total_w@ == total_wg_at(ls, gx, gt, 0));
        }
        let mut m: usize = 0;
        while m < n
            invariant
                m <= n,
                total_w.wf(),
                total_w.spec_rows() == rows0,
                total_w.spec_cols() == cols0,
                total_w@ == total_wg_at(ls, gx, gt, m as nat),
                forall|mm: int|
                    0 <= mm < m ==> (#[trigger] ls[n - 1 - mm]).weights.spec_rows() == rows0 && ls[n
                        - 1 - mm].weights.spec_cols() == cols0,
            decreases n - m,
        {
            match total_w.add(&wgs[m]) {
                Ok(t) => {
                    total_w = t;
                },
                Err(_) => {
                    proof {
                        assert(ls[n - 1 - m].weights.spec_rows() != rows0 || ls[n - 1
                            - m].weights.spec_cols() != cols0);
                        assert(!uniform_shapes(ls));
                    }
                    return Err(NetError::ShapeMismatch);
                },
            }
            m = m + 1;
        }
        proof {
            assert forall|k: int|
                0 <= k < ls.len() implies (#[trigger] ls[k]).weights.spec_rows()
                == ls[0].weights.spec_rows() && ls[k].weights.spec_cols()
                == ls[0].weights.spec_cols() by {
                assert(ls[n - 1 - (n - 1 - k)].weights.spec_rows() == rows0 && ls[n - 1 - (n - 1
                    - k)].weights.spec_cols() == cols0);
            }
            assert(uniform_shapes(ls));
        }

        // Sum the deltas onto a zero vector of the first layer's
        // output width.
        let mut total_d = Vector::zeros(rows0);
        proof {
            assert(total_d@ =~= zero_vec(rows0 as nat));
            assert(total_d@ == total_delta_at(ls, gx, gt, 0));
        }
        let mut md: usize = 0;
        while md < n
            invariant
                md <= n,
                total_d@.len() == rows0,
                total_d@ == total_delta_at(ls, gx, gt, md as nat),
            decreases n - md,
        {
            proof {
                lemma_delta_len(ls, gx, gt, (n - 1 - md) as nat);
            }
            total_d = total_d.add(&deltas[md]).unwrap();
            md = md + 1;
        }
        Ok((total_w, total_d))
    }

    /// Read-only inference: the same computation as `forward`.
    pub fn predict(&self, input: Vector) -> (res: Result<Vector, NetError>)
        requires
            self.wf(),
        ensures
            match res {
                Ok(v) => chain_ok(self.layers@, input@.len()) && v@ == net_forward(
                    self.layers@,
                    input@,
                ),
                Err(e) => !chain_ok(self.layers@, input@.len()) && e == NetError::ShapeMismatch,
            },
    {
        self.forward(input)
    }

    /// The elementwise product of an error signal and an activation
    /// derivative, the delta rule of backpropagation; `ShapeMismatch`
    /// exactly when the lengths differ.
    pub fn delta(&self, error: &Vector, gradient: &Vector) -> (res: Result<Vector, NetError>)
        ensures
            match res {
                Ok(v) => error@.len() == gradient@.len() && v@ == vmul(error@, gradient@),
                Err(e) => error@.len() != gradient@.len() && e == NetError::ShapeMismatch,
            },
    {
        error.elementwise_multiply(gradient)
    }

    /// The weight-gradient matrix from a layer input and a delta: their
    /// outer product, one row per delta component.  The cached layer
    /// output is accepted alongside but does not enter the
    /// outer-product rule.
    pub fn weight_gradients(&self, input: &Vector, _output: &Vector, gradient: &Vector) -> (m:
        Matrix)
        requires
            gradient@.len() * input@.len() <= usize::MAX,
        ensures
            m.wf(),
            m.spec_rows() == gradient@.len(),
            m.spec_cols() == input@.len(),
            m@ == outer(input@, gradient@),
    {
        outer_product(input, gradient)
    }

    /// A copy of every layer's bias vector, in stack order.
    pub fn biases(&self) -> (r: Vec<Vector>)
        ensures
            r@.len() == self.layers@.len(),
            forall|i: int|
                0 <= i < r@.len() ==> #[trigger] r@[i]@ == self.layers@[i].biases@,
    {
        let n = self.layers.len();
        let mut out: Vec<Vector> = Vec::new();
        let mut i: usize = 0;
        while i < n
            invariant
                i <= n,
                n == self.layers@.len(),
                out@.len() == i,
                forall|j: int|
                    0 <= j < i ==> #[trigger] out@[j]@ == self.layers@[j].biases@,
            decreases n - i,
        {
            out.push(self.layers[i].biases.clone());
            i = i + 1;
        }
        out
    }

    /// A copy of every layer's weight matrix, in stack order.
    pub fn weights(&self) -> (r: Vec<Matrix>)
        ensures
            r@.len() == self.layers@.len(),
            forall|i: int|
                0 <= i < r@.len() ==> #[trigger] r@[i]@ == self.layers@[i].weights@
                    && r@[i].spec_rows() == self.layers@[i].weights.spec_rows() && r@[i].spec_cols()
                    == self.layers@[i].weights.spec_cols(),
        {
        let n = self.layers.len();
        let mut out: Vec<Matrix> = Vec::new();
        let mut i: usize = 0;
        while i < n
            invariant
                i <= n,
                n == self.layers@.len(),
                out@.len() == i,
                forall|j: int|
                    0 <= j < i ==> #[trigger] out@[j]@ == self.layers@[j].weights@
                        && out@[j].spec_rows() == self.layers@[j].weights.spec_rows()
                        && out@[j].spec_cols() == self.layers@[j].weights.spec_cols(),
            decreases n - i,
        {
            out.push(self.layers[i].weights.clone());
            i = i + 1;
        }
        out
    }

    /// Apply an aggregate gradient pair to the first layer: its weights
    /// and biases each move against the gradient by `learning_rate`
    /// times the given gradient.  `ShapeMismatch` exactly when the pair
    /// does not have the first layer's shape, in which case nothing
    /// changes.
    pub fn update(&mut self, weight_gradients: &Matrix, delta: &Vector, learning_rate: i64) -> (res:
        Result<(), NetError>)
        requires
            old(self).wf(),
            old(self).layers@.len() > 0,
            weight_gradients.wf(),
        ensures
            final(self).wf(),
            final(self).layers@.len() == old(self).layers@.len(),
            match res {
                Ok(()) => {
                    &&& weight_gradients.spec_rows() == old(self).layers@[0].weights.spec_rows()
                    &&& weight_gradients.spec_cols() == old(self).layers@[0].weights.spec_cols()
                    &&& delta@.len() == old(self).layers@[0].biases@.len()
                    &&& final(self).layers@[0].weights@ == msub(
                        old(self).layers@[0].weights@,
                        mscale(weight_gradients@, learning_rate as int),
                    )
                    &&& final(self).layers@[0].biases@ == vsub(
                        old(self).layers@[0].biases@,
                        vscale(delta@, learning_rate as int),
                    )
                    &&& final(self).layers@[0].weights.spec_rows() == old(
                        self,
                    ).layers@[0].weights.spec_rows()
                    &&& final(self).layers@[0].weights.spec_cols() == old(
                        self,
                    ).layers@[0].weights.spec_cols()
                    &&& forall|i: int|
                        1 <= i < old(self).layers@.len() ==> #[trigger] final(self).layers@[i]
                            == old(self).layers@[i]
                },
                Err(e) => {
                    &&& (weight_gradients.spec_rows() != old(self).layers@[0].weights.spec_rows()
                        || weight_gradients.spec_cols() != old(
                        self,
                    ).layers@[0].weights.spec_cols() || delta@.len() != old(
                        self,
                    ).layers@[0].biases@.len())
                    &&& e == NetError::ShapeMismatch
                    &&& *final(self) == *old(self)
                },
            },
    {
        let l0 = &self.layers[0];
        if weight_gradients.row_count() != l0.weights.row_count() || weight_gradients.col_count()
            != l0.weights.col_count() || delta.len() != l0.biases.len() {
            return Err(NetError::ShapeMismatch);
        }
        let scaled_w = weight_gradients.scalar_multiply(learning_rate);
        let stepped_w = self.layers[0].weights.subtract(&scaled_w).unwrap();
        let scaled_b = delta.scalar_multiply(learning_rate);
        let stepped_b = self.layers[0].biases.subtract(&scaled_b).unwrap();
        let mut l = self.layers[0].clone();
        l.weights = stepped_w;
        l.biases = stepped_b;
        self.layers.set(0, l);
        Ok(())
    }

    /// One in-place gradient-descent step on every layer's weights,
    /// each against its own recorded weight gradient.
    pub fn update_weights(&mut self, learning_rate: i64)
        requires
            old(self).wf(),
        ensures
            final(self).wf(),
            final(self).layers@.len() == old(self).layers@.len(),
            forall|i: int|
                0 <= i < old(self).layers@.len() ==> {
                    &&& (#[trigger] final(self).layers@[i]).weights@ == msub(
                        old(self).layers@[i].weights@,
                        mscale(old(self).layers@[i].weight_gradient@, learning_rate as int),
                    )
                    &&& final(self).layers@[i].biases == old(self).layers@[i].biases
                    &&& final(self).layers@[i].weight_gradient == old(
                        self,
                    ).layers@[i].weight_gradient
                    &&& final(self).layers@[i].bias_gradient == old(self).layers@[i].bias_gradient
                    &&& final(self).layers@[i].weights.spec_rows() == old(
                        self,
                    ).layers@[i].weights.spec_rows()
                    &&& final(self).layers@[i].weights.spec_cols() == old(
                        self,
                    ).layers@[i].weights.spec_cols()
                },
    {
        let n = self.layers.len();
        let mut i: usize = 0;
        while i < n
            invariant
                i <= n,
                n == self.layers@.len(),
                n == old(self).layers@.len(),
                self.wf(),
                forall|j: int|
                    i <= j < n ==> #[trigger] self.layers@[j] == old(self).layers@[j],
                forall|j: int|
                    0 <= j < i ==> {
                        &&& (#[trigger] self.layers@[j]).weights@ == msub(
                            old(self).layers@[j].weights@,
                            mscale(old(self).layers@[j].weight_gradient@, learning_rate as int),
                        )
                        &&& self.layers@[j].biases == old(self).layers@[j].biases
                        &&& self.layers@[j].weight_gradient == old(self).layers@[j].weight_gradient
                        &&& self.layers@[j].bias_gradient == old(self).layers@[j].bias_gradient
                        &&& self.layers@[j].weights.spec_rows() == old(
                            self,
                        ).layers@[j].weights.spec_rows()
                        &&& self.layers@[j].weights.spec_cols() == old(
                            self,
                        ).layers@[j].weights.spec_cols()
                    },
            decreases n - i,
        {
            self.layers[i].update_weights(learning_rate);
            i = i + 1;
        }
    }

    /// One in-place gradient-descent step on every layer's biases, each
    /// against its own recorded bias gradient.
    pub fn update_biases(&mut self, learning_rate: i64)
        requires
            old(self).wf(),
        ensures
            final(self).wf(),
            final(self).layers@.len() == old(self).layers@.len(),
            forall|i: int|
                0 <= i < old(self).layers@.len() ==> {
                    &&& (#[trigger] final(self).layers@[i]).biases@ == vsub(
                        old(self).layers@[i].biases@,
                        vscale(old(self).layers@[i].bias_gradient@, learning_rate as int),
                    )
                    &&& final(self).layers@[i].weights == old(self).layers@[i].weights
                    &&& final(self).layers@[i].weight_gradient == old(
                        self,
                    ).layers@[i].weight_gradient
                    &&& final(self).layers@[i].bias_gradient == old(self).layers@[i].bias_gradient
                },
    {
        let n = self.layers.len();
        let mut i: usize = 0;
        while i < n
            invariant
                i <= n,
                n == self.layers@.len(),
                n == old(self).layers@.len(),
                self.wf(),
                forall|j: int|
                    i <= j < n ==> #[trigger] self.layers@[j] == old(self).layers@[j],
                forall|j: int|
                    0 <= j < i ==> {
                        &&& (#[trigger] self.layers@[j]).biases@ == vsub(
                            old(self).layers@[j].biases@,
                            vscale(old(self).layers@[j].bias_gradient@, learning_rate as int),
                        )
                        &&& self.layers@[j].weights == old(self).layers@[j].weights
                        &&& self.layers@[j].weight_gradient == old(self).layers@[j].weight_gradient
                        &&& self.layers@[j].bias_gradient == old(self).layers@[j].bias_gradient
                    },
            decreases n - i,
        {
            self.layers[i].update_biases(learning_rate);
            i = i + 1;
        }
    }

    /// The loss of one pair: the squared norm of `prediction - target`.
    /// `ShapeMismatch` exactly when the input fails to chain or the
    /// target does not match the output width.
    pub fn loss(&self, input: Vector, target: Vector) -> (res: Result<i64, NetError>)
        requires
            self.wf(),
        ensures
            match res {
                Ok(l) => pair_ok(self.layers@, input@, target@) && l as int == loss_of(
                    self.layers@,
                    input@,
                    target@,
                ) && l >= 0,
                Err(e) => !pair_ok(self.layers@, input@, target@) && e == NetError::ShapeMismatch,
            },
    {
        let out = match self.forward(input) {
            Ok(v) => v,
            Err(e) => {
                return Err(e);
            },
        };
        let error = match out.subtract(&target) {
            Ok(v) => v,
            Err(e) => {
                return Err(e);
            },
        };
        Ok(error.magnitude())
    }

    /// The accuracy of one pair: the fraction of output components
    /// whose absolute error is below one half, as a fixed-point
    /// fraction of `SCALE`.  `ShapeMismatch` exactly as for `loss`.
    #[verifier::loop_isolation(false)]
    pub fn accuracy(&self, input: Vector, target: Vector) -> (res: Result<i64, NetError>)
        requires
            self.wf(),
            target@.len() > 0,
        ensures
            match res {
                Ok(a) => pair_ok(self.layers@, input@, target@) && a as int == acc_of(
                    self.layers@,
                    input@,
                    target@,
                ) && 0 <= a <= SCALE,
                Err(e) => !pair_ok(self.layers@, input@, target@) && e == NetError::ShapeMismatch,
            },
    {
        let ghost ls = self.layers@;
        let ghost gx = input@;
        let ghost gt = target@;
        let out = match self.forward(input) {
            Ok(v) => v,
            Err(e) => {
                return Err(e);
            },
        };
        let error = match out.subtract(&target) {
            Ok(v) => v,
            Err(e) => {
                return Err(e);
            },
        };
        let n = error.len();
        let mut count: usize = 0;
        let mut i: usize = 0;
        while i < n
            invariant
                i <= n,
                n == error@.len(),
                n == error.elements@.len(),
                count <= i,
                count as int == count_close(error@.take(i as int)),
            decreases n - i,
        {
            let e = error.elements[i];
            proof {
                assert(error@.take(i + 1).drop_last() =~= error@.take(i as int));
                assert(error@.take(i + 1).last() == error@[i as int]);
            }
            if -HALF < e && e < HALF {
                count = count + 1;
            }
            i = i + 1;
        }
        proof {
            assert(error@.take(n as int) =~= error@);
            assert((count as int * SCALE as int) / (n as int) <= SCALE as int)
                by (nonlinear_arith)
                requires
                    0 <= count as int <= n as int,
                    n as int > 0,
                    SCALE as int > 0,
            ;
        }
        let a: i64 = (((count as u128) * (SCALE as u128)) / (n as u128)) as i64;
        Ok(a)
    }

    /// The mean loss and mean accuracy over a batch of pairs, by
    /// saturating sums and integer division; `ShapeMismatch` exactly
    /// when some pair fails to chain or match.
    #[verifier::loop_isolation(false)]
    pub fn evaluate(&self, inputs: &Vec<Vector>, targets: &Vec<Vector>) -> (res: Result<
        (i64, i64),
        NetError,
    >)
        requires
            self.wf(),
            inputs@.len() == targets@.len(),
            inputs@.len() > 0,
            forall|i: int| 0 <= i < targets@.len() ==> (#[trigger] targets@[i])@.len() > 0,
        ensures
            match res {
                Ok(p) => {
                    &&& batch_all_ok(self.layers@, inputs@, targets@)
                    &&& p.0 as int == total_loss_at(self.layers@, inputs@, targets@, inputs@.len())
                        / inputs@.len() as int
                    &&& p.1 as int == total_acc_at(self.layers@, inputs@, targets@, inputs@.len())
                        / inputs@.len() as int
                    &&& p.0 >= 0
                    &&& p.1 >= 0
                },
                Err(e) => {
                    &&& !batch_all_ok(self.layers@, inputs@, targets@)
                    &&& e == NetError::ShapeMismatch
                },
            },
    {
        let n = inputs.len();
        let mut total_loss: i64 = 0;
        let mut total_acc: i64 = 0;
        let mut i: usize = 0;
        while i < n
            invariant
                i <= n,
                n == inputs@.len(),
                total_loss >= 0,
                total_acc >= 0,
                total_loss as int == total_loss_at(self.layers@, inputs@, targets@, i as nat),
                total_acc as int == total_acc_at(self.layers@, inputs@, targets@, i as nat),
                forall|j: int| 0 <= j < i ==> pair_ok(self.layers@, (#[trigger] inputs@[j])@, targets@[j]@),
            decreases n - i,
        {
            let l = match self.loss(inputs[i].clone(), targets[i].clone()) {
                Ok(v) => v,
                Err(e) => {
                    return Err(e);
                },
            };
            let a = match self.accuracy(inputs[i].clone(), targets[i].clone()) {
                Ok(v) => v,
                Err(e) => {
                    return Err(e);
                },
            };
            total_loss = add_fx(total_loss, l);
            total_acc = add_fx(total_acc, a);
            i = i + 1;
        }
        let ml: i64 = ((total_loss as u64) / (n as u64)) as i64;
        let ma: i64 = ((total_acc as u64) / (n as u64)) as i64;
        Ok((ml, ma))
    }

    /// The prediction for every input of a batch, in order;
    /// `ShapeMismatch` exactly when some input fails to chain.
    #[verifier::loop_isolation(false)]
    pub fn predict_batch(&self, inputs: &Vec<Vector>) -> (res: Result<Vec<Vector>, NetError>)
        requires
            self.wf(),
        ensures
            match res {
                Ok(vs) => vs@.len() == inputs@.len() && (forall|i: int|
                    0 <= i < inputs@.len() ==> chain_ok(self.layers@, (#[trigger] inputs@[i])@.len())
                        && vs@[i]@ == net_forward(self.layers@, inputs@[i]@)),
                Err(e) => (exists|i: int|
                    0 <= i < inputs@.len() && !chain_ok(
                        self.layers@,
                        (#[trigger] inputs@[i])@.len(),
                    )) && e == NetError::ShapeMismatch,
            },
    {
        let n = inputs.len();
        let mut out: Vec<Vector> = Vec::new();
        let mut i: usize = 0;
        while i < n
            invariant
                i <= n,
                n == inputs@.len(),
                out@.len() == i,
                forall|j: int|
                    0 <= j < i ==> chain_ok(self.layers@, (#[trigger] inputs@[j])@.len())
                        && out@[j]@ == net_forward(self.layers@, inputs@[j]@),
            decreases n - i,
        {
            match self.predict(inputs[i].clone()) {
                Ok(v) => {
                    out.push(v);
                },
                Err(e) => {
                    return Err(e);
                },
            }
            i = i + 1;
        }
        Ok(out)
    }

    /// The mean loss over a batch of pairs; `ShapeMismatch` exactly
    /// when some pair fails to chain or match.
    #[verifier::loop_isolation(false)]
    pub fn loss_batch(&self, inputs: &Vec<Vector>, targets: &Vec<Vector>) -> (res: Result<
        i64,
        NetError,
    >)
        requires
            self.wf(),
            inputs@.len() == targets@.len(),
            inputs@.len() > 0,
        ensures
            match res {
                Ok(l) => batch_all_ok(self.layers@, inputs@, targets@) && l as int
                    == total_loss_at(self.layers@, inputs@, targets@, inputs@.len())
                    / inputs@.len() as int && l >= 0,
                Err(e) => !batch_all_ok(self.layers@, inputs@, targets@) && e
                    == NetError::ShapeMismatch,
            },
    {
        let n = inputs.len();
        let mut total_loss: i64 = 0;
        let mut i: usize = 0;
        while i < n
            invariant
                i <= n,
                n == inputs@.len(),
                total_loss >= 0,
                total_loss as int == total_loss_at(self.layers@, inputs@, targets@, i as nat),
                forall|j: int| 0 <= j < i ==> pair_ok(self.layers@, (#[trigger] inputs@[j])@, targets@[j]@),
            decreases n - i,
        {
            let l = match self.loss(inputs[i].clone(), targets[i].clone()) {
                Ok(v) => v,
                Err(e) => {
                    return Err(e);
                },
            };
            total_loss = add_fx(total_loss, l);
            i = i + 1;
        }
        Ok(((total_loss as u64) / (n as u64)) as i64)
    }

    /// The mean accuracy over a batch of pairs; `ShapeMismatch` exactly
    /// when some pair fails to chain or match.
    #[verifier::loop_isolation(false)]
    pub fn accuracy_batch(&self, inputs: &Vec<Vector>, targets: &Vec<Vector>) -> (res: Result<
        i64,
        NetError,
    >)
        requires
            self.wf(),
            inputs@.len() == targets@.len(),
            inputs@.len() > 0,
            forall|i: int| 0 <= i < targets@.len() ==> (#[trigger] targets@[i])@.len() > 0,
        ensures
            match res {
                Ok(a) => batch_all_ok(self.layers@, inputs@, targets@) && a as int == total_acc_at(
                    self.layers@,
                    inputs@,
                    targets@,
                    inputs@.len(),
                ) / inputs@.len() as int && a >= 0,
                Err(e) => !batch_all_ok(self.layers@, inputs@, targets@) && e
                    == NetError::ShapeMismatch,
            },
    {
        let n = inputs.len();
        let mut total_acc: i64 = 0;
        let mut i: usize = 0;
        while i < n
            invariant
                i <= n,
                n == inputs@.len(),
                total_acc >= 0,
                total_acc as int == total_acc_at(self.layers@, inputs@, targets@, i as nat),
                forall|j: int| 0 <= j < i ==> pair_ok(self.layers@, (#[trigger] inputs@[j])@, targets@[j]@),
            decreases n - i,
        {
            let a = match self.accuracy(inputs[i].clone(), targets[i].clone()) {
                Ok(v) => v,
                Err(e) => {
                    return Err(e);
                },
            };
            total_acc = add_fx(total_acc, a);
            i = i + 1;
        }
        Ok(((total_acc as u64) / (n as u64)) as i64)
    }

    /// The mean loss and mean accuracy of a batch, as `loss_batch` and
    /// `accuracy_batch` compute them.
    pub fn evaluate_batch(&self, inputs: &Vec<Vector>, targets: &Vec<Vector>) -> (res: Result<
        (i64, i64),
        NetError,
    >)
        requires
            self.wf(),
            inputs@.len() == targets@.len(),
            inputs@.len() > 0,
            forall|i: int| 0 <= i < targets@.len() ==> (#[trigger] targets@[i])@.len() > 0,
        ensures
            match res {
                Ok(p) => {
                    &&& batch_all_ok(self.layers@, inputs@, targets@)
                    &&& p.0 as int == total_loss_at(self.layers@, inputs@, targets@, inputs@.len())
                        / inputs@.len() as int
                    &&& p.1 as int == total_acc_at(self.layers@, inputs@, targets@, inputs@.len())
                        / inputs@.len() as int
                    &&& p.0 >= 0
                    &&& p.1 >= 0
                },
                Err(e) => {
                    &&& !batch_all_ok(self.layers@, inputs@, targets@)
                    &&& e == NetError::ShapeMismatch
                },
            },
    {
        let l = match self.loss_batch(inputs, targets) {
            Ok(v) => v,
            Err(e) => {
                return Err(e);
            },
        };
        let a = match self.accuracy_batch(inputs, targets) {
            Ok(v) => v,
            Err(e) => {
                return Err(e);
            },
        };
        Ok((l, a))
    }

    /// One backward pass and one aggregate update on a single pair.
    fn train_step(&mut self, input: Vector, target: Vector, learning_rate: i64) -> (res: Result<
        (),
        NetError,
    >)
        requires
            old(self).wf(),
            old(self).layers@.len() > 0,
        ensures
            final(self).wf(),
            same_shapes(old(self).layers@, final(self).layers@),
            match res {
                Ok(()) => step_rel(
                    old(self).layers@,
                    final(self).layers@,
                    input@,
                    target@,
                    learning_rate as int,
                ),
                Err(e) => !backward_ok(old(self).layers@, input@, target@) && e
                    == NetError::ShapeMismatch && *final(self) == *old(self),
            },
    {
        let ghost pre = self.layers@;
        let (wg, d) = match self.backward(input, target) {
            Ok(p) => p,
            Err(e) => {
                return Err(e);
            },
        };
        proof {
            assert(d@.len() == self.layers@[0].biases@.len());
        }
        self.update(&wg, &d, learning_rate).unwrap();
        Ok(())
    }

    /// One training epoch: one backward pass and one aggregate update
    /// per pair of the batch, in order.  `ShapeMismatch` exactly when
    /// some pair does not fit the stack, judged against the shapes at
    /// entry, which training never changes.
    #[verifier::loop_isolation(false)]
    pub fn train_epoch(&mut self, inputs: &Vec<Vector>, targets: &Vec<Vector>, learning_rate: i64) -> (res:
        Result<(), NetError>)
        requires
            old(self).wf(),
            old(self).layers@.len() > 0,
            inputs@.len() == targets@.len(),
        ensures
            final(self).wf(),
            same_shapes(old(self).layers@, final(self).layers@),
            match res {
                Ok(()) => {
                    &&& forall|i: int|
                        0 <= i < inputs@.len() ==> backward_ok(
                            old(self).layers@,
                            (#[trigger] inputs@[i])@,
                            targets@[i]@,
                        )
                    &&& epoch_passed(
                        old(self).layers@,
                        final(self).layers@,
                        inputs@,
                        targets@,
                        learning_rate as int,
                    )
                },
                Err(e) => {
                    &&& exists|i: int|
                        0 <= i < inputs@.len() && !backward_ok(
                            old(self).layers@,
                            (#[trigger] inputs@[i])@,
                            targets@[i]@,
                        )
                    &&& e == NetError::ShapeMismatch
                },
            },
    {
        let n = inputs.len();
        let ghost mut states: Seq<Seq<Layer>> = seq![old(self).layers@];
        let mut i: usize = 0;
        while i < n
            invariant
                i <= n,
                self.wf(),
                self.layers@.len() == old(self).layers@.len(),
                same_shapes(old(self).layers@, self.layers@),
                states.len() == i + 1,
                states[0] == old(self).layers@,
                states[i as int] == self.layers@,
                forall|j: int|
                    0 <= j < i ==> step_rel(
                        states[j],
                        states[j + 1],
                        (#[trigger] inputs@[j])@,
                        targets@[j]@,
                        learning_rate as int,
                    ),
                forall|j: int|
                    0 <= j < i ==> backward_ok(
                        old(self).layers@,
                        (#[trigger] inputs@[j])@,
                        targets@[j]@,
                    ),
            decreases n - i,
        {
            let ghost mid = self.layers@;
            match self.train_step(inputs[i].clone(), targets[i].clone(), learning_rate) {
                Ok(()) => {},
                Err(_) => {
                    proof {
                        lemma_backward_ok_same_shapes(
                            old(self).layers@,
                            mid,
                            inputs@[i as int]@,
                            targets@[i as int]@,
                        );
                    }
                    return Err(NetError::ShapeMismatch);
                },
            }
            proof {
                lemma_backward_ok_same_shapes(
                    old(self).layers@,
                    mid,
                    inputs@[i as int]@,
                    targets@[i as int]@,
                );
                states = states.push(self.layers@);
            }
            i = i + 1;
        }
        proof {
            assert(epoch_trace(states, inputs@, targets@, learning_rate as int));
        }
        Ok(())
    }

    /// `epochs` repetitions of `train_epoch` over the same batch.
    #[verifier::loop_isolation(false)]
    pub fn train_epochs(
        &mut self,
        inputs: &Vec<Vector>,
        targets: &Vec<Vector>,
        learning_rate: i64,
        epochs: usize,
    ) -> (res: Result<(), NetError>)
        requires
            old(self).wf(),
            old(self).layers@.len() > 0,
            inputs@.len() == targets@.len(),
        ensures
            final(self).wf(),
            same_shapes(old(self).layers@, final(self).layers@),
            match res {
                Ok(()) => (epochs == 0 || forall|i: int|
                    0 <= i < inputs@.len() ==> backward_ok(
                        old(self).layers@,
                        (#[trigger] inputs@[i])@,
                        targets@[i]@,
                    )) && (exists|sts: Seq<Seq<Layer>>|
                    {
                        &&& sts.len() == epochs + 1
                        &&& sts[0] == old(self).layers@
                        &&& sts[epochs as int] == final(self).layers@
                        &&& forall|e: int|
                            0 <= e < epochs ==> epoch_passed(
                                #[trigger] sts[e],
                                sts[e + 1],
                                inputs@,
                                targets@,
                                learning_rate as int,
                            )
                    }),
                Err(e) => epochs > 0 && (exists|i: int|
                    0 <= i < inputs@.len() && !backward_ok(
                        old(self).layers@,
                        (#[trigger] inputs@[i])@,
                        targets@[i]@,
                    )) && e == NetError::ShapeMismatch,
            },
    {
        let mut ep: usize = 0;
        let ghost mut sts: Seq<Seq<Layer>> = seq![old(self).layers@];
        while ep < epochs
            invariant
                ep <= epochs,
                self.wf(),
                same_shapes(old(self).layers@, self.layers@),
                sts.len() == ep + 1,
                sts[0] == old(self).layers@,
                sts[ep as int] == self.layers@,
                forall|e: int|
                    0 <= e < ep ==> epoch_passed(
                        #[trigger] sts[e],
                        sts[e + 1],
                        inputs@,
                        targets@,
                        learning_rate as int,
                    ),
                ep > 0 ==> forall|i: int|
                    0 <= i < inputs@.len() ==> backward_ok(
                        old(self).layers@,
                        (#[trigger] inputs@[i])@,
                        targets@[i]@,
                    ),
            decreases epochs - ep,
        {
            let ghost mid = self.layers@;
            match self.train_epoch(inputs, targets, learning_rate) {
                Ok(()) => {
                    proof {
                        assert forall|i: int|
                            0 <= i < inputs@.len() implies backward_ok(
                            old(self).layers@,
                            (#[trigger] inputs@[i])@,
                            targets@[i]@,
                        ) by {
                            lemma_backward_ok_same_shapes(
                                old(self).layers@,
                                mid,
                                inputs@[i]@,
                                targets@[i]@,
                            );
                        }
                        sts = sts.push(self.layers@);
                    }
                },
                Err(e) => {
                    proof {
                        let i = choose|i: int|
                            0 <= i < inputs@.len() && !backward_ok(mid, inputs@[i]@, targets@[i]@);
                        lemma_backward_ok_same_shapes(
                            old(self).layers@,
                            mid,
                            inputs@[i]@,
                            targets@[i]@,
                        );
                    }
                    return Err(e);
                },
            }
            ep = ep + 1;
        }
        Ok(())
    }

    /// Push-stability of the span sums: extending a run does not
    /// change sums over its existing positions.
    proof fn lemma_span_sums_push(
        states: Seq<Seq<Layer>>,
        z: Seq<Layer>,
        x: Seq<int>,
        t: Seq<int>,
        base: int,
        k: nat,
    )
        requires
            base >= 0,
            base + k < states.len(),
        ensures
            span_loss_sum(states.push(z), x, t, base, k) == span_loss_sum(states, x, t, base, k),
            span_acc_sum(states.push(z), x, t, base, k) == span_acc_sum(states, x, t, base, k),
        decreases k,
    {
        if k > 0 {
            Self::lemma_span_sums_push(states, z, x, t, base, (k - 1) as nat);
            assert(states.push(z)[base + k] == states[base + k]);
        }
    }

    /// The training entry point of the engine: per epoch, one backward
    /// pass and one aggregate update per input component, always on the
    /// full `inputs`/`targets` pair, at the fixed `LEARNING_RATE`.
    /// Every step moves only the first layer, along the recorded run of
    /// stacks; each epoch's entry of the returned statistics is exactly
    /// the mean loss and mean accuracy over that epoch's post-step
    /// stacks.
    #[verifier::loop_isolation(false)]
    #[verifier::rlimit(100)]
    pub fn train(&mut self, inputs: Vector, targets: Vector, epochs: usize) -> (res: Result<
        Vec<(i64, i64)>,
        NetError,
    >)
        requires
            old(self).wf(),
            old(self).layers@.len() > 0,
            inputs@.len() > 0,
            targets@.len() > 0,
        ensures
            final(self).wf(),
            same_shapes(old(self).layers@, final(self).layers@),
            match res {
                Ok(stats) => {
                    &&& stats@.len() == epochs
                    &&& (epochs > 0 ==> backward_ok(old(self).layers@, inputs@, targets@))
                    &&& (forall|i: int|
                        1 <= i < old(self).layers@.len() ==> #[trigger] final(self).layers@[i]
                            == old(self).layers@[i])
                    &&& exists|sts: Seq<Seq<Layer>>|
                        {
                            &&& repeat_trace(
                                sts,
                                inputs@,
                                targets@,
                                LEARNING_RATE as int,
                                (epochs * inputs@.len()) as nat,
                            )
                            &&& sts[0] == old(self).layers@
                            &&& sts[(epochs * inputs@.len()) as int] == final(self).layers@
                            &&& forall|e: int|
                                0 <= e < epochs ==> (#[trigger] stats@[e]).0 as int
                                    == span_loss_sum(
                                    sts,
                                    inputs@,
                                    targets@,
                                    e * inputs@.len(),
                                    inputs@.len(),
                                ) / inputs@.len() as int && stats@[e].1 as int == span_acc_sum(
                                    sts,
                                    inputs@,
                                    targets@,
                                    e * inputs@.len(),
                                    inputs@.len(),
                                ) / inputs@.len() as int
                        }
                    &&& forall|e: int|
                        0 <= e < epochs ==> (#[trigger] stats@[e]).0 >= 0 && stats@[e].1 >= 0
                },
                Err(e) => epochs > 0 && !backward_ok(old(self).layers@, inputs@, targets@) && e
                    == NetError::ShapeMismatch,
            },
    {
        let ghost gx = inputs@;
        let ghost gt = targets@;
        let n = inputs.len();
        let mut stats: Vec<(i64, i64)> = Vec::new();
        let ghost mut sts: Seq<Seq<Layer>> = seq![old(self).layers@];
        let mut ep: usize = 0;
        while ep < epochs
            invariant
                ep <= epochs,
                self.wf(),
                same_shapes(old(self).layers@, self.layers@),
                stats@.len() == ep,
                sts.len() == ep * n + 1,
                sts[0] == old(self).layers@,
                sts[ep * n] == self.layers@,
                forall|j: int|
                    0 <= j < ep * n ==> step_rel(
                        #[trigger] sts[j],
                        sts[j + 1],
                        gx,
                        gt,
                        LEARNING_RATE as int,
                    ),
                forall|i: int|
                    1 <= i < old(self).layers@.len() ==> #[trigger] self.layers@[i] == old(
                        self,
                    ).layers@[i],
                ep > 0 ==> backward_ok(old(self).layers@, inputs@, targets@),
                forall|e: int|
                    0 <= e < ep ==> (#[trigger] stats@[e]).0 as int == span_loss_sum(
                        sts,
                        gx,
                        gt,
                        e * n,
                        n as nat,
                    ) / n as int && stats@[e].1 as int == span_acc_sum(sts, gx, gt, e * n, n as nat)
                        / n as int,
                forall|e: int|
                    0 <= e < ep ==> (#[trigger] stats@[e]).0 >= 0 && stats@[e].1 >= 0,
            decreases epochs - ep,
        {
            let mut total_loss: i64 = 0;
            let mut total_acc: i64 = 0;
            let mut i: usize = 0;
            proof {
                assert((ep + 1) * n == ep * n + n) by (nonlinear_arith);
                assert forall|e: int| 0 <= e < ep implies #[trigger] (e * n) + n <= ep * n by {
                    assert((e + 1) * n == e * n + n && (e + 1) * n <= ep * n) by (nonlinear_arith)
                        requires
                            e + 1 <= ep,
                            n as int >= 0,
                    ;
                }
            }
            while i < n
                invariant
                    i <= n,
                    ep < epochs,
                    self.wf(),
                    same_shapes(old(self).layers@, self.layers@),
                    total_loss >= 0,
                    0 <= total_acc,
                    sts.len() == ep * n + i + 1,
                    sts[0] == old(self).layers@,
                    sts[ep * n + i] == self.layers@,
                    forall|j: int|
                        0 <= j < ep * n + i ==> step_rel(
                            #[trigger] sts[j],
                            sts[j + 1],
                            gx,
                            gt,
                            LEARNING_RATE as int,
                        ),
                    forall|ii: int|
                        1 <= ii < old(self).layers@.len() ==> #[trigger] self.layers@[ii] == old(
                            self,
                        ).layers@[ii],
                    total_loss as int == span_loss_sum(sts, gx, gt, ep * n, i as nat),
                    total_acc as int == span_acc_sum(sts, gx, gt, ep * n, i as nat),
                    forall|e: int|
                        0 <= e < ep ==> (#[trigger] stats@[e]).0 as int == span_loss_sum(
                            sts,
                            gx,
                            gt,
                            e * n,
                            n as nat,
                        ) / n as int && stats@[e].1 as int == span_acc_sum(
                            sts,
                            gx,
                            gt,
                            e * n,
                            n as nat,
                        ) / n as int,
                    i > 0 ==> backward_ok(old(self).layers@, inputs@, targets@),
                decreases n - i,
            {
                let ghost mid = self.layers@;
                match self.train_step(inputs.clone(), targets.clone(), LEARNING_RATE) {
                    Ok(()) => {},
                    Err(_) => {
                        proof {
                            lemma_backward_ok_same_shapes(old(self).layers@, mid, inputs@, targets@);
                        }
                        return Err(NetError::ShapeMismatch);
                    },
                }
                proof {
                    lemma_backward_ok_same_shapes(old(self).layers@, mid, inputs@, targets@);
                    let cur = self.layers@;
                    lemma_backward_ok_same_shapes(old(self).layers@, cur, inputs@, targets@);
                    lemma_backward_ok_pair_ok(cur, inputs@, targets@);
                    assert forall|e: int|
                        0 <= e < ep implies #[trigger] span_loss_sum(
                        sts.push(cur),
                        gx,
                        gt,
                        e * n,
                        n as nat,
                    ) == span_loss_sum(sts, gx, gt, e * n, n as nat) && span_acc_sum(
                        sts.push(cur),
                        gx,
                        gt,
                        e * n,
                        n as nat,
                    ) == span_acc_sum(sts, gx, gt, e * n, n as nat) by {
                        assert(e * n >= 0) by (nonlinear_arith)
                            requires
                                e >= 0,
                                n as int >= 0,
                        ;
                        Self::lemma_span_sums_push(sts, cur, gx, gt, e * n, n as nat);
                    }
                    Self::lemma_span_sums_push(sts, cur, gx, gt, ep * n, i as nat);
                    assert forall|j: int|
                        0 <= j < ep * n + i implies #[trigger] sts.push(cur)[j] == sts[j]
                        && sts.push(cur)[j + 1] == sts[j + 1] by {}
                    sts = sts.push(cur);
                }
                let l = self.loss(inputs.clone(), targets.clone()).unwrap();
                let a = self.accuracy(inputs.clone(), targets.clone()).unwrap();
                proof {
                    assert(sts[ep * n + i + 1] == self.layers@);
                }
                total_loss = add_fx(total_loss, l);
                total_acc = add_fx(total_acc, a);
                i = i + 1;
            }
            let ml: i64 = ((total_loss as u64) / (n as u64)) as i64;
            let ma: i64 = ((total_acc as u64) / (n as u64)) as i64;
            proof {
                assert((ep + 1) * n == ep * n + n) by (nonlinear_arith);
            }
            stats.push((ml, ma));
            ep = ep + 1;
        }
        proof {
            assert(epochs * n == ep * n);
        }
        Ok(stats)
    }

    /// Repeated epochs until the loss improvement between consecutive
    /// epochs is no more than `tolerance`, or `max_epochs` epochs have
    /// run, whichever comes first; the number of epochs executed is
    /// returned and never exceeds `max_epochs`.
    #[verifier::loop_isolation(false)]
    #[verifier::rlimit(100)]
    #[verifier::spinoff_prover]
    pub fn train_until_convergence(
        &mut self,
        inputs: &Vec<Vector>,
        targets: &Vec<Vector>,
        learning_rate: i64,
        max_epochs: usize,
        tolerance: i64,
    ) -> (res: Result<usize, NetError>)
        requires
            old(self).wf(),
            old(self).layers@.len() > 0,
            inputs@.len() == targets@.len(),
            inputs@.len() > 0,
            forall|i: int| 0 <= i < targets@.len() ==> (#[trigger] targets@[i])@.len() > 0,
            tolerance >= 0,
        ensures
            final(self).wf(),
            same_shapes(old(self).layers@, final(self).layers@),
            match res {
                Ok(ep) => {
                    &&& ep <= max_epochs
                    &&& exists|sts: Seq<Seq<Layer>>|
                        {
                            &&& sts.len() == ep + 1
                            &&& sts[0] == old(self).layers@
                            &&& sts[ep as int] == final(self).layers@
                            &&& forall|e: int|
                                0 <= e < ep ==> epoch_passed(
                                    #[trigger] sts[e],
                                    sts[e + 1],
                                    inputs@,
                                    targets@,
                                    learning_rate as int,
                                )
                            &&& forall|e: int|
                                0 <= e < ep ==> diff_of(
                                    prev_loss_of(sts, e, inputs@, targets@),
                                    mean_loss(#[trigger] sts[e], inputs@, targets@),
                                ) > tolerance
                            &&& (ep < max_epochs ==> diff_of(
                                prev_loss_of(sts, ep as int, inputs@, targets@),
                                mean_loss(sts[ep as int], inputs@, targets@),
                            ) <= tolerance)
                        }
                },
                Err(e) => e == NetError::ShapeMismatch && !(batch_all_ok(
                    old(self).layers@,
                    inputs@,
                    targets@,
                ) && forall|i: int|
                    0 <= i < inputs@.len() ==> backward_ok(
                        old(self).layers@,
                        (#[trigger] inputs@[i])@,
                        targets@[i]@,
                    )),
            },
    {
        let mut epoch: usize = 0;
        let ghost mut sts: Seq<Seq<Layer>> = seq![old(self).layers@];
        let mut prev_loss: i64 = MAX_MAG;
        let mut loss: i64 = match self.evaluate(inputs, targets) {
            Ok(p) => p.0,
            Err(e) => {
                return Err(e);
            },
        };
        let mut diff: i64 = if prev_loss >= loss {
            prev_loss - loss
        } else {
            loss - prev_loss
        };
        while diff > tolerance && epoch < max_epochs
            invariant
                epoch <= max_epochs,
                self.wf(),
                same_shapes(old(self).layers@, self.layers@),
                prev_loss >= 0,
                loss >= 0,
                sts.len() == epoch + 1,
                sts[0] == old(self).layers@,
                sts[epoch as int] == self.layers@,
                loss as int == mean_loss(self.layers@, inputs@, targets@),
                prev_loss as int == prev_loss_of(sts, epoch as int, inputs@, targets@),
                diff as int == diff_of(prev_loss as int, loss as int),
                forall|e: int|
                    0 <= e < epoch ==> epoch_passed(
                        #[trigger] sts[e],
                        sts[e + 1],
                        inputs@,
                        targets@,
                        learning_rate as int,
                    ),
                forall|e: int|
                    0 <= e < epoch ==> diff_of(
                        prev_loss_of(sts, e, inputs@, targets@),
                        mean_loss(#[trigger] sts[e], inputs@, targets@),
                    ) > tolerance,
            decreases max_epochs - epoch,
        {
            prev_loss = loss;
            let ghost mid = self.layers@;
            match self.train_epoch(inputs, targets, learning_rate) {
                Ok(()) => {},
                Err(e) => {
                    proof {
                        let i = choose|i: int|
                            0 <= i < inputs@.len() && !backward_ok(mid, inputs@[i]@, targets@[i]@);
                        lemma_backward_ok_same_shapes(
                            old(self).layers@,
                            mid,
                            inputs@[i]@,
                            targets@[i]@,
                        );
                    }
                    return Err(e);
                },
            }
            let ghost cur = self.layers@;
            loss = match self.evaluate(inputs, targets) {
                Ok(p) => p.0,
                Err(e) => {
                    proof {
                        let i = choose|i: int|
                            0 <= i < inputs@.len() && !pair_ok(cur, inputs@[i]@, targets@[i]@);
                        lemma_pair_ok_same_shapes(old(self).layers@, cur, inputs@[i]@, targets@[i]@);
                    }
                    return Err(e);
                },
            };
            diff = if prev_loss >= loss {
                prev_loss - loss
            } else {
                loss - prev_loss
            };
            proof {
                assert forall|e: int|
                    0 <= e < epoch + 1 implies sts.push(cur)[e] == sts[e] by {}
                sts = sts.push(cur);
            }
            epoch = epoch + 1;
        }
        Ok(epoch)
    }

    /// Extending a run by one stack keeps every earlier position, every
    /// earlier piece of early-stopping bookkeeping, and unfolds the
    /// bookkeeping of the new epoch.
    proof fn lemma_es_extend(
        sts: Seq<Seq<Layer>>,
        cur: Seq<Layer>,
        vins: Seq<Vector>,
        vts: Seq<Vector>,
        epoch: nat,
    )
        requires
            sts.len() == epoch + 1,
        ensures
            forall|e: int| 0 <= e < epoch + 1 ==> #[trigger] sts.push(cur)[e] == sts[e],
            sts.push(cur)[epoch as int + 1] == cur,
            forall|e: int|
                0 <= e < epoch + 1 ==> #[trigger] stop_state(sts.push(cur), vins, vts, e as nat)
                    == stop_state(sts, vins, vts, e as nat),
            stop_state(sts.push(cur), vins, vts, (epoch + 1) as nat) == ({
                let prev = stop_state(sts, vins, vts, epoch);
                let vl = mean_loss(cur, vins, vts);
                if vl < prev.0 {
                    (vl, 0int)
                } else {
                    (prev.0, prev.1 + 1)
                }
            }),
    {
        assert forall|e: int|
            0 <= e < epoch + 1 implies #[trigger] stop_state(sts.push(cur), vins, vts, e as nat)
            == stop_state(sts, vins, vts, e as nat) by {
            lemma_stop_state_push(sts, cur, vins, vts, e as nat);
        }
        let prev = stop_state(sts.push(cur), vins, vts, epoch);
        let vl = mean_loss(sts.push(cur)[epoch as int + 1], vins, vts);
        assert(stop_state(sts.push(cur), vins, vts, (epoch + 1) as nat) == (if vl < prev.0 {
            (vl, 0int)
        } else {
            (prev.0, prev.1 + 1)
        }));
    }

    /// One epoch of the early-stopping loop: train over the batch, then
    /// report the batch's and the validation batch's mean losses on the
    /// resulting stack.
    fn early_stopping_epoch(
        &mut self,
        inputs: &Vec<Vector>,
        targets: &Vec<Vector>,
        validation_inputs: &Vec<Vector>,
        validation_targets: &Vec<Vector>,
        learning_rate: i64,
    ) -> (res: Result<(i64, i64), NetError>)
        requires
            old(self).wf(),
            old(self).layers@.len() > 0,
            inputs@.len() == targets@.len(),
            inputs@.len() > 0,
            validation_inputs@.len() == validation_targets@.len(),
            validation_inputs@.len() > 0,
            forall|i: int| 0 <= i < targets@.len() ==> (#[trigger] targets@[i])@.len() > 0,
            forall|i: int|
                0 <= i < validation_targets@.len() ==> (
                #[trigger] validation_targets@[i])@.len() > 0,
        ensures
            final(self).wf(),
            same_shapes(old(self).layers@, final(self).layers@),
            match res {
                Ok(p) => {
                    &&& epoch_passed(
                        old(self).layers@,
                        final(self).layers@,
                        inputs@,
                        targets@,
                        learning_rate as int,
                    )
                    &&& p.0 as int == mean_loss(final(self).layers@, inputs@, targets@)
                    &&& p.1 as int == mean_loss(
                        final(self).layers@,
                        validation_inputs@,
                        validation_targets@,
                    )
                    &&& p.0 >= 0
                    &&& p.1 >= 0
                },
                Err(e) => e == NetError::ShapeMismatch && !es_batches_ok(
                    old(self).layers@,
                    inputs@,
                    targets@,
                    validation_inputs@,
                    validation_targets@,
                ),
            },
    {
        match self.train_epoch(inputs, targets, learning_rate) {
            Ok(()) => {},
            Err(_) => {
                return Err(NetError::ShapeMismatch);
            },
        }
        let ghost cur = self.layers@;
        let l = match self.evaluate(inputs, targets) {
            Ok(p) => p.0,
            Err(_) => {
                proof {
                    let i = choose|i: int|
                        0 <= i < inputs@.len() && !pair_ok(cur, inputs@[i]@, targets@[i]@);
                    lemma_pair_ok_same_shapes(old(self).layers@, cur, inputs@[i]@, targets@[i]@);
                }
                return Err(NetError::ShapeMismatch);
            },
        };
        let vl = match self.evaluate(validation_inputs, validation_targets) {
            Ok(p) => p.0,
            Err(_) => {
                proof {
                    let i = choose|i: int|
                        0 <= i < validation_inputs@.len() && !pair_ok(
                            cur,
                            validation_inputs@[i]@,
                            validation_targets@[i]@,
                        );
                    lemma_pair_ok_same_shapes(
                        old(self).layers@,
                        cur,
                        validation_inputs@[i]@,
                        validation_targets@[i]@,
                    );
                }
                return Err(NetError::ShapeMismatch);
            },
        };
        Ok((l, vl))
    }

    /// Like `train_until_convergence`, but a held-out validation batch
    /// is evaluated after every epoch, and training also stops once the
    /// validation loss has not improved for `patience` consecutive
    /// epochs.  The result reports how many epochs ran and why the loop
    /// stopped; it never runs more than `max_epochs` epochs.
    #[verifier::rlimit(100)]
    #[verifier::spinoff_prover]
    pub fn train_until_convergence_with_early_stopping(
        &mut self,
        inputs: &Vec<Vector>,
        targets: &Vec<Vector>,
        validation_inputs: &Vec<Vector>,
        validation_targets: &Vec<Vector>,
        learning_rate: i64,
        max_epochs: usize,
        tolerance: i64,
        patience: usize,
    ) -> (res: Result<(usize, StopReason), NetError>)
        requires
            old(self).wf(),
            old(self).layers@.len() > 0,
            inputs@.len() == targets@.len(),
            inputs@.len() > 0,
            validation_inputs@.len() == validation_targets@.len(),
            validation_inputs@.len() > 0,
            forall|i: int| 0 <= i < targets@.len() ==> (#[trigger] targets@[i])@.len() > 0,
            forall|i: int|
                0 <= i < validation_targets@.len() ==> (#[trigger] validation_targets@[i])@.len()
                    > 0,
            tolerance >= 0,
            patience > 0,
        ensures
            final(self).wf(),
            same_shapes(old(self).layers@, final(self).layers@),
            match res {
                Ok(p) => {
                    &&& p.0 <= max_epochs
                    &&& exists|sts: Seq<Seq<Layer>>|
                        {
                            &&& sts.len() == p.0 + 1
                            &&& sts[0] == old(self).layers@
                            &&& sts[p.0 as int] == final(self).layers@
                            &&& forall|e: int|
                                0 <= e < p.0 ==> epoch_passed(
                                    #[trigger] sts[e],
                                    sts[e + 1],
                                    inputs@,
                                    targets@,
                                    learning_rate as int,
                                )
                            &&& forall|e: int|
                                0 <= e < p.0 ==> diff_of(
                                    prev_loss_of(sts, e, inputs@, targets@),
                                    mean_loss(#[trigger] sts[e], inputs@, targets@),
                                ) > tolerance
                            &&& forall|e: int|
                                0 <= e < p.0 ==> (#[trigger] stop_state(
                                    sts,
                                    validation_inputs@,
                                    validation_targets@,
                                    e as nat,
                                )).1 < patience
                            &&& (p.1 == StopReason::EarlyStopped <==> stop_state(
                                sts,
                                validation_inputs@,
                                validation_targets@,
                                p.0 as nat,
                            ).1 >= patience)
                            &&& (p.1 == StopReason::MaxEpochsReached ==> p.0 == max_epochs)
                            &&& (p.1 == StopReason::Converged ==> diff_of(
                                prev_loss_of(sts, p.0 as int, inputs@, targets@),
                                mean_loss(sts[p.0 as int], inputs@, targets@),
                            ) <= tolerance)
                        }
                },
                Err(e) => e == NetError::ShapeMismatch && !es_batches_ok(
                    old(self).layers@,
                    inputs@,
                    targets@,
                    validation_inputs@,
                    validation_targets@,
                ),
            },
    {
        let mut epoch: usize = 0;
        let ghost mut sts: Seq<Seq<Layer>> = seq![old(self).layers@];
        let mut prev_loss: i64 = MAX_MAG;
        let mut loss: i64 = match self.evaluate(inputs, targets) {
            Ok(p) => p.0,
            Err(e) => {
                return Err(e);
            },
        };
        let mut best_loss: i64 = match self.evaluate(validation_inputs, validation_targets) {
            Ok(p) => p.0,
            Err(e) => {
                return Err(e);
            },
        };
        let mut patience_counter: usize = 0;
        let mut stopped_early: bool = false;
        let mut diff: i64 = if prev_loss >= loss {
            prev_loss - loss
        } else {
            loss - prev_loss
        };
        while diff > tolerance && epoch < max_epochs && !stopped_early
            invariant
                epoch <= max_epochs,
                self.wf(),
                old(self).wf(),
                old(self).layers@.len() > 0,
                inputs@.len() == targets@.len(),
                inputs@.len() > 0,
                validation_inputs@.len() == validation_targets@.len(),
                validation_inputs@.len() > 0,
                forall|i: int| 0 <= i < targets@.len() ==> (#[trigger] targets@[i])@.len() > 0,
                forall|i: int|
                    0 <= i < validation_targets@.len() ==> (
                    #[trigger] validation_targets@[i])@.len() > 0,
                tolerance >= 0,
                patience > 0,
                same_shapes(old(self).layers@, self.layers@),
                prev_loss >= 0,
                loss >= 0,
                best_loss >= 0,
                patience_counter <= patience,
                !stopped_early ==> patience_counter < patience,
                sts.len() == epoch + 1,
                sts[0] == old(self).layers@,
                sts[epoch as int] == self.layers@,
                loss as int == mean_loss(self.layers@, inputs@, targets@),
                prev_loss as int == prev_loss_of(sts, epoch as int, inputs@, targets@),
                diff as int == diff_of(prev_loss as int, loss as int),
                best_loss as int == stop_state(
                    sts,
                    validation_inputs@,
                    validation_targets@,
                    epoch as nat,
                ).0,
                patience_counter as int == stop_state(
                    sts,
                    validation_inputs@,
                    validation_targets@,
                    epoch as nat,
                ).1,
                stopped_early <==> stop_state(
                    sts,
                    validation_inputs@,
                    validation_targets@,
                    epoch as nat,
                ).1 >= patience,
                forall|e: int|
                    0 <= e < epoch ==> epoch_passed(
                        #[trigger] sts[e],
                        sts[e + 1],
                        inputs@,
                        targets@,
                        learning_rate as int,
                    ),
                forall|e: int|
                    0 <= e < epoch ==> diff_of(
                        prev_loss_of(sts, e, inputs@, targets@),
                        mean_loss(#[trigger] sts[e], inputs@, targets@),
                    ) > tolerance,
                forall|e: int|
                    0 <= e < epoch ==> (#[trigger] stop_state(
                        sts,
                        validation_inputs@,
                        validation_targets@,
                        e as nat,
                    )).1 < patience,
            decreases max_epochs - epoch,
        {
            prev_loss = loss;
            let ghost mid = self.layers@;
            let (new_loss, validation_loss) = match self.early_stopping_epoch(
                inputs,
                targets,
                validation_inputs,
                validation_targets,
                learning_rate,
            ) {
                Ok(p) => p,
                Err(_) => {
                    proof {
                        lemma_es_batches_ok_same_shapes(
                            old(self).layers@,
                            mid,
                            inputs@,
                            targets@,
                            validation_inputs@,
                            validation_targets@,
                        );
                    }
                    return Err(NetError::ShapeMismatch);
                },
            };
            loss = new_loss;
            proof {
                let cur = self.layers@;
                Self::lemma_es_extend(
                    sts,
                    cur,
                    validation_inputs@,
                    validation_targets@,
                    epoch as nat,
                );
                sts = sts.push(cur);
            }
            if validation_loss < best_loss {
                best_loss = validation_loss;
                patience_counter = 0;
            } else {
                patience_counter = patience_counter + 1;
                if patience_counter >= patience {
                    stopped_early = true;
                }
            }
            diff = if prev_loss >= loss {
                prev_loss - loss
            } else {
                loss - prev_loss
            };
            epoch = epoch + 1;
        }
        let reason = if stopped_early {
            StopReason::EarlyStopped
        } else if epoch == max_epochs && diff > tolerance {
            StopReason::MaxEpochsReached
        } else {
            StopReason::Converged
        };
        Ok((epoch, reason))
    }

    /// One pass over a shuffled batch: the caller supplies the visiting
    /// order, the external source of randomness of mini-batch training;
    /// `batch_size` only groups the visits and does not change the
    /// arithmetic, every visited pair still gets one backward pass and
    /// one aggregate update.
    #[verifier::loop_isolation(false)]
    pub fn train_minibatch(
        &mut self,
        inputs: &Vec<Vector>,
        targets: &Vec<Vector>,
        learning_rate: i64,
        batch_size: usize,
        order: &Vec<usize>,
    ) -> (res: Result<(), NetError>)
        requires
            old(self).wf(),
            old(self).layers@.len() > 0,
            inputs@.len() == targets@.len(),
            batch_size > 0,
            forall|j: int| 0 <= j < order@.len() ==> (#[trigger] order@[j]) < inputs@.len(),
        ensures
            final(self).wf(),
            same_shapes(old(self).layers@, final(self).layers@),
            match res {
                Ok(()) => (forall|j: int|
                    0 <= j < order@.len() ==> backward_ok(
                        old(self).layers@,
                        (#[trigger] inputs@[order@[j] as int])@,
                        targets@[order@[j] as int]@,
                    )) && minibatch_passed(
                    old(self).layers@,
                    final(self).layers@,
                    inputs@,
                    targets@,
                    order@,
                    learning_rate as int,
                ),
                Err(e) => (exists|j: int|
                    0 <= j < order@.len() && !backward_ok(
                        old(self).layers@,
                        (#[trigger] inputs@[order@[j] as int])@,
                        targets@[order@[j] as int]@,
                    )) && e == NetError::ShapeMismatch,
            },
    {
        let n = order.len();
        let ghost mut states: Seq<Seq<Layer>> = seq![old(self).layers@];
        let mut j: usize = 0;
        while j < n
            invariant
                j <= n,
                n == order@.len(),
                self.wf(),
                same_shapes(old(self).layers@, self.layers@),
                states.len() == j + 1,
                states[0] == old(self).layers@,
                states[j as int] == self.layers@,
                forall|jj: int|
                    0 <= jj < j ==> step_rel(
                        states[jj],
                        states[jj + 1],
                        inputs@[(#[trigger] order@[jj]) as int]@,
                        targets@[order@[jj] as int]@,
                        learning_rate as int,
                    ),
                forall|jj: int|
                    0 <= jj < j ==> backward_ok(
                        old(self).layers@,
                        (#[trigger] inputs@[order@[jj] as int])@,
                        targets@[order@[jj] as int]@,
                    ),
            decreases n - j,
        {
            let idx = order[j];
            let ghost mid = self.layers@;
            match self.train_step(inputs[idx].clone(), targets[idx].clone(), learning_rate) {
                Ok(()) => {
                    proof {
                        lemma_backward_ok_same_shapes(
                            old(self).layers@,
                            mid,
                            inputs@[idx as int]@,
                            targets@[idx as int]@,
                        );
                        states = states.push(self.layers@);
                    }
                },
                Err(_) => {
                    proof {
                        lemma_backward_ok_same_shapes(
                            old(self).layers@,
                            mid,
                            inputs@[idx as int]@,
                            targets@[idx as int]@,
                        );
                    }
                    return Err(NetError::ShapeMismatch);
                },
            }
            j = j + 1;
        }
        proof {
            assert(order_trace(states, inputs@, targets@, order@, learning_rate as int));
        }
        Ok(())
    }

    /// `epochs` passes of `train_minibatch` with the same order.
    #[verifier::loop_isolation(false)]
    pub fn train_minibatches(
        &mut self,
        inputs: &Vec<Vector>,
        targets: &Vec<Vector>,
        learning_rate: i64,
        batch_size: usize,
        order: &Vec<usize>,
        epochs: usize,
    ) -> (res: Result<(), NetError>)
        requires
            old(self).wf(),
            old(self).layers@.len() > 0,
            inputs@.len() == targets@.len(),
            batch_size > 0,
            forall|j: int| 0 <= j < order@.len() ==> (#[trigger] order@[j]) < inputs@.len(),
        ensures
            final(self).wf(),
            same_shapes(old(self).layers@, final(self).layers@),
            match res {
                Ok(()) => exists|sts: Seq<Seq<Layer>>|
                    {
                        &&& sts.len() == epochs + 1
                        &&& sts[0] == old(self).layers@
                        &&& sts[epochs as int] == final(self).layers@
                        &&& forall|e: int|
                            0 <= e < epochs ==> minibatch_passed(
                                #[trigger] sts[e],
                                sts[e + 1],
                                inputs@,
                                targets@,
                                order@,
                                learning_rate as int,
                            )
                    },
                Err(e) => e == NetError::ShapeMismatch && epochs > 0 && (exists|j: int|
                    0 <= j < order@.len() && !backward_ok(
                        old(self).layers@,
                        (#[trigger] inputs@[order@[j] as int])@,
                        targets@[order@[j] as int]@,
                    )),
            },
    {
        let mut ep: usize = 0;
        let ghost mut sts: Seq<Seq<Layer>> = seq![old(self).layers@];
        while ep < epochs
            invariant
                ep <= epochs,
                self.wf(),
                same_shapes(old(self).layers@, self.layers@),
                sts.len() == ep + 1,
                sts[0] == old(self).layers@,
                sts[ep as int] == self.layers@,
                forall|e: int|
                    0 <= e < ep ==> minibatch_passed(
                        #[trigger] sts[e],
                        sts[e + 1],
                        inputs@,
                        targets@,
                        order@,
                        learning_rate as int,
                    ),
            decreases epochs - ep,
        {
            let ghost mid = self.layers@;
            match self.train_minibatch(inputs, targets, learning_rate, batch_size, order) {
                Ok(()) => {
                    proof {
                        sts = sts.push(self.layers@);
                    }
                },
                Err(e) => {
                    proof {
                        let j = choose|j: int|
                            0 <= j < order@.len() && !backward_ok(
                                mid,
                                inputs@[order@[j] as int]@,
                                targets@[order@[j] as int]@,
                            );
                        lemma_backward_ok_same_shapes(
                            old(self).layers@,
                            mid,
                            inputs@[order@[j] as int]@,
                            targets@[order@[j] as int]@,
                        );
                    }
                    return Err(e);
                },
            }
            ep = ep + 1;
        }
        Ok(())
    }
}

impl Clone for Network {
    /// An exact copy: same number of layers, each a copy of the original.
    fn clone(&self) -> (r: Self)
        ensures
            r.layers@.len() == self.layers@.len(),
            forall|i: int|
                0 <= i < self.layers@.len() ==> {
                    &&& (#[trigger] r.layers@[i]).weights@ == self.layers@[i].weights@
                    &&& r.layers@[i].biases@ == self.layers@[i].biases@
                    &&& r.layers@[i].weights.spec_rows() == self.layers@[i].weights.spec_rows()
                    &&& r.layers@[i].weights.spec_cols() == self.layers@[i].weights.spec_cols()
                    &&& r.layers@[i].wf() == self.layers@[i].wf()
                },
            self.wf() ==> r.wf(),
    {
        let n = self.layers.len();
        let mut out: Vec<Layer> = Vec::new();
        let mut i: usize = 0;
        while i < n
            invariant
                i <= n,
                n == self.layers@.len(),
                out@.len() == i,
                forall|j: int|
                    0 <= j < i ==> {
                        &&& (#[trigger] out@[j]).weights@ == self.layers@[j].weights@
                        &&& out@[j].biases@ == self.layers@[j].biases@
                        &&& out@[j].weights.spec_rows() == self.layers@[j].weights.spec_rows()
                        &&& out@[j].weights.spec_cols() == self.layers@[j].weights.spec_cols()
                        &&& out@[j].wf() == self.layers@[j].wf()
                    },
            decreases n - i,
        {
            out.push(self.layers[i].clone());
            i = i + 1;
        }
        Network { layers: out }
    }
}

} // verus!
