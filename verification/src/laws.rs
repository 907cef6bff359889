//! Laws of the engine, stated over the same spec functions its
//! contracts use and proved once for all inputs.

use vstd::prelude::*;

use crate::fixed::{HALF, MAX_MAG, SCALE, act, fx_add, fx_mul, fx_sub, tdiv};
use crate::layer::{Layer, dot, layer_forward};
use crate::matrix::{grid_in_range, mscale, msub};
use crate::network::{acc_of, loss_of, total_acc_at, total_loss_at, zero_vec};
use crate::vector::{Vector, in_range, mag, vadd, vscale, vsub};

verus! {

/// Adding a vector elementwise and then subtracting it again restores
/// the original, whenever no intermediate sum saturates.
pub proof fn lemma_add_subtract_roundtrip(a: Seq<int>, b: Seq<int>)
    requires
        a.len() == b.len(),
        in_range(a),
        forall|i: int| 0 <= i < a.len() ==> -MAX_MAG <= #[trigger] a[i] + b[i] <= MAX_MAG,
    ensures
        vsub(vadd(a, b), b) == a,
{
    assert forall|i: int| 0 <= i < a.len() implies vsub(vadd(a, b), b)[i] == a[i] by {
        assert(fx_add(a[i], b[i]) == a[i] + b[i]);
        assert(fx_sub(a[i] + b[i], b[i]) == a[i]);
    }
    assert(vsub(vadd(a, b), b) =~= a);
}

/// Multiplying a matrix by the scalar one leaves it unchanged.
pub proof fn lemma_scalar_multiply_one(a: Seq<Seq<int>>)
    requires
        grid_in_range(a),
    ensures
        mscale(a, SCALE as int) == a,
{
    assert forall|r: int| 0 <= r < a.len() implies mscale(a, SCALE as int)[r] =~= a[r] by {
        assert forall|c: int| 0 <= c < a[r].len() implies mscale(a, SCALE as int)[r][c]
            == a[r][c] by {
            let x = a[r][c];
            assert((x * SCALE) / (SCALE as int) == x) by (nonlinear_arith)
                requires
                    SCALE as int > 0,
            ;
            assert((-(x * SCALE)) == (-x) * SCALE) by (nonlinear_arith);
            assert(((-x) * SCALE) / (SCALE as int) == -x) by (nonlinear_arith)
                requires
                    SCALE as int > 0,
            ;
            assert(fx_mul(x, SCALE as int) == x);
        }
    }
    assert(mscale(a, SCALE as int) =~~= a);
}

/// The squared norm of the all-zero vector is zero.
pub proof fn lemma_zeros_magnitude(n: nat)
    ensures
        mag(zero_vec(n)) == 0,
    decreases n,
{
    if n > 0 {
        lemma_zeros_magnitude((n - 1) as nat);
        assert(zero_vec(n).drop_last() =~= zero_vec((n - 1) as nat));
        assert(zero_vec(n).last() == 0);
        assert(fx_mul(0, 0) == 0);
    }
}

/// The dot product of any row with an all-zero vector is zero.
proof fn lemma_dot_zero(row: Seq<int>, x: Seq<int>)
    requires
        row.len() == x.len(),
        forall|i: int| 0 <= i < x.len() ==> #[trigger] x[i] == 0,
    ensures
        dot(row, x) == 0,
    decreases row.len(),
{
    if row.len() > 0 {
        lemma_dot_zero(row.drop_last(), x.drop_last());
        assert(x.last() == 0);
        assert(row.last() * 0 == 0) by (nonlinear_arith);
        assert(fx_mul(row.last(), 0) == 0);
    }
}

/// A layer applied to an all-zero input with all-zero biases yields
/// the activation's value at zero, `HALF`, in every component,
/// whatever the weights.
pub proof fn lemma_forward_zero_input(w: Seq<Seq<int>>, b: Seq<int>, x: Seq<int>)
    requires
        b.len() == w.len(),
        forall|i: int| 0 <= i < x.len() ==> #[trigger] x[i] == 0,
        forall|j: int| 0 <= j < b.len() ==> #[trigger] b[j] == 0,
        forall|j: int| 0 <= j < w.len() ==> (#[trigger] w[j]).len() == x.len(),
    ensures
        forall|j: int| 0 <= j < w.len() ==> layer_forward(w, b, x)[j] == HALF,
{
    assert forall|j: int| 0 <= j < w.len() implies layer_forward(w, b, x)[j] == HALF by {
        lemma_dot_zero(w[j], x);
        assert(fx_add(0, 0) == 0);
        assert(act(0) == HALF);
    }
}

/// The saturating sum of a value with itself `k` times is exact while
/// it stays in range.
proof fn lemma_repeat_sum(ls: Seq<Layer>, ins: Seq<Vector>, ts: Seq<Vector>, x: Vector, t: Vector, k: nat)
    requires
        forall|i: int| 0 <= i < ins.len() ==> #[trigger] ins[i] == x,
        forall|i: int| 0 <= i < ts.len() ==> #[trigger] ts[i] == t,
        k <= ins.len(),
        k <= ts.len(),
        loss_of(ls, x@, t@) >= 0,
        acc_of(ls, x@, t@) >= 0,
        k * loss_of(ls, x@, t@) <= MAX_MAG,
        k * acc_of(ls, x@, t@) <= MAX_MAG,
    ensures
        total_loss_at(ls, ins, ts, k) == k * loss_of(ls, x@, t@),
        total_acc_at(ls, ins, ts, k) == k * acc_of(ls, x@, t@),
    decreases k,
{
    let l = loss_of(ls, x@, t@);
    let a = acc_of(ls, x@, t@);
    if k == 0 {
        assert(0 * l == 0) by (nonlinear_arith);
        assert(0 * a == 0) by (nonlinear_arith);
    } else {
        assert((k - 1) * l == k * l - l && (k - 1) * a == k * a - a) by (nonlinear_arith);
        assert(0 <= (k - 1) * l <= MAX_MAG && 0 <= (k - 1) * a <= MAX_MAG) by (nonlinear_arith)
            requires
                l >= 0,
                a >= 0,
                k >= 1,
                (k - 1) * l == k * l - l,
                (k - 1) * a == k * a - a,
                k * l <= MAX_MAG,
                k * a <= MAX_MAG,
        ;
        lemma_repeat_sum(ls, ins, ts, x, t, (k - 1) as nat);
        assert(ins[k - 1] == x && ts[k - 1] == t);
        assert(fx_add((k - 1) * l, l) == k * l);
        assert(fx_add((k - 1) * a, a) == k * a);
    }
}

/// Over a batch of `k` identical pairs, the batch means equal the
/// single pair's loss and accuracy exactly, for any `k >= 1`, as long
/// as no running sum saturates.
pub proof fn lemma_evaluate_batch_identical(
    ls: Seq<Layer>,
    ins: Seq<Vector>,
    ts: Seq<Vector>,
    x: Vector,
    t: Vector,
)
    requires
        ins.len() == ts.len(),
        ins.len() >= 1,
        forall|i: int| 0 <= i < ins.len() ==> #[trigger] ins[i] == x,
        forall|i: int| 0 <= i < ts.len() ==> #[trigger] ts[i] == t,
        loss_of(ls, x@, t@) >= 0,
        acc_of(ls, x@, t@) >= 0,
        ins.len() * loss_of(ls, x@, t@) <= MAX_MAG,
        ins.len() * acc_of(ls, x@, t@) <= MAX_MAG,
    ensures
        total_loss_at(ls, ins, ts, ins.len()) / ins.len() as int == loss_of(ls, x@, t@),
        total_acc_at(ls, ins, ts, ins.len()) / ins.len() as int == acc_of(ls, x@, t@),
{
    let k = ins.len();
    lemma_repeat_sum(ls, ins, ts, x, t, k);
    let l = loss_of(ls, x@, t@);
    let a = acc_of(ls, x@, t@);
    assert((k * l) / k as int == l) by (nonlinear_arith)
        requires
            k as int >= 1,
    ;
    assert((k * a) / k as int == a) by (nonlinear_arith)
        requires
            k as int >= 1,
    ;
}

/// Stepping a vector against a scaled gradient and then against the
/// negated gradient restores it: the add-then-subtract inverse lifted
/// to the parameter update, whenever neither step saturates.
pub proof fn lemma_update_undo_vec(b: Seq<int>, d: Seq<int>, lr: int)
    requires
        d.len() == b.len(),
        in_range(b),
        in_range(d),
        forall|i: int|
            0 <= i < d.len() ==> -MAX_MAG <= tdiv(#[trigger] d[i] * lr, SCALE as int) <= MAX_MAG,
        forall|i: int|
            0 <= i < b.len() ==> -MAX_MAG <= #[trigger] b[i] - tdiv(d[i] * lr, SCALE as int)
                <= MAX_MAG,
    ensures
        vsub(vsub(b, vscale(d, lr)), vscale(vscale(d, -(SCALE as int)), lr)) == b,
{
    assert forall|i: int|
        0 <= i < b.len() implies vsub(
        vsub(b, vscale(d, lr)),
        vscale(vscale(d, -(SCALE as int)), lr),
    )[i] == b[i] by {
        let dv = d[i];
        let step = tdiv(dv * lr, SCALE as int);
        assert((dv * SCALE) / (SCALE as int) == dv && ((-dv) * SCALE) / (SCALE as int) == -dv
            && dv * (-(SCALE as int)) == -(dv * SCALE) && (-dv) * lr == -(dv * lr))
            by (nonlinear_arith)
            requires
                SCALE as int > 0,
        ;
        assert(tdiv(dv * (-(SCALE as int)), SCALE as int) == -dv);
        assert(fx_mul(dv, -(SCALE as int)) == -dv);
        assert(tdiv(-(dv * lr), SCALE as int) == -step);
        assert(fx_mul(-dv, lr) == -step);
        assert(fx_mul(dv, lr) == step);
        assert(fx_sub(b[i], step) == b[i] - step);
        assert(fx_sub(b[i] - step, -step) == b[i]);
    }
    assert(vsub(vsub(b, vscale(d, lr)), vscale(vscale(d, -(SCALE as int)), lr)) =~= b);
}

/// The same inverse on a weight grid: the aggregate update applied with
/// a gradient pair and then with the negated pair restores the first
/// layer's weights exactly, whenever no step saturates.
pub proof fn lemma_update_undo(w: Seq<Seq<int>>, g: Seq<Seq<int>>, lr: int)
    requires
        g.len() == w.len(),
        forall|r: int| 0 <= r < w.len() ==> (#[trigger] g[r]).len() == w[r].len(),
        grid_in_range(w),
        grid_in_range(g),
        forall|r: int, c: int|
            0 <= r < g.len() && 0 <= c < g[r].len() ==> -MAX_MAG <= tdiv(
                #[trigger] g[r][c] * lr,
                SCALE as int,
            ) <= MAX_MAG,
        forall|r: int, c: int|
            0 <= r < w.len() && 0 <= c < w[r].len() ==> -MAX_MAG <= #[trigger] w[r][c] - tdiv(
                g[r][c] * lr,
                SCALE as int,
            ) <= MAX_MAG,
    ensures
        msub(msub(w, mscale(g, lr)), mscale(mscale(g, -(SCALE as int)), lr)) == w,
{
    assert forall|r: int|
        0 <= r < w.len() implies msub(
        msub(w, mscale(g, lr)),
        mscale(mscale(g, -(SCALE as int)), lr),
    )[r] =~= w[r] by {
        lemma_update_undo_vec(w[r], g[r], lr);
        assert(msub(msub(w, mscale(g, lr)), mscale(mscale(g, -(SCALE as int)), lr))[r] =~= vsub(
            vsub(w[r], vscale(g[r], lr)),
            vscale(vscale(g[r], -(SCALE as int)), lr),
        ));
    }
    assert(msub(msub(w, mscale(g, lr)), mscale(mscale(g, -(SCALE as int)), lr)) =~~= w);
}

/// At the unit learning rate the update moves a parameter by exactly
/// the given gradient.
pub proof fn lemma_update_unit_rate(w: Seq<Seq<int>>, g: Seq<Seq<int>>)
    requires
        grid_in_range(g),
    ensures
        msub(w, mscale(g, SCALE as int)) == msub(w, g),
{
    lemma_scalar_multiply_one(g);
}

} // verus!
