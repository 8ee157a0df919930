//! The cross-entropy loss.

use vstd::prelude::*;
use vstd::slice::slice_subrange;

use crate::buffer::{lemma_row_bound, lemma_row_step, row, window_mut};
use crate::scalar::{evals, lit, nought, unit, Expr, Scalar, Traced};

verus! {

/// Each of the first `n` targets is one of `v` classes.
pub open spec fn targets_in_range(targets: Seq<i32>, n: int, v: int) -> bool {
    &&& n <= targets.len()
    &&& forall|r: int| 0 <= r < n ==> 0 <= #[trigger] targets[r] < v
}

/// The first `n` elements of `out` are the negated logarithms of the probabilities of their
/// targets. What lies behind is as it was.
pub open spec fn losses_of<T: Scalar>(
    out0: Seq<T>,
    out: Seq<T>,
    probs: Seq<T>,
    targets: Seq<i32>,
    n: int,
    v: int,
) -> bool {
    &&& out.len() == out0.len()
    &&& forall|r: int|
        0 <= r < out.len() ==> if r < n {
            evals(lit(row(probs, r, v)[targets[r] as int]).ln().neg(), #[trigger] out[r])
        } else {
            out[r] == out0[r]
        }
}

/// One where class `i` is the target, and else zero.
pub open spec fn indicator<T>(i: int, target: int) -> Expr<T> {
    if i == target {
        unit()
    } else {
        nought()
    }
}

/// `after` is the gradient `before` of a row of logits with that of its loss added.
pub open spec fn logits_carried_back<T: Scalar>(
    before: Seq<T>,
    after: Seq<T>,
    dloss: T,
    probs: Seq<T>,
    target: int,
) -> bool {
    &&& after.len() == before.len()
    &&& forall|i: int|
        0 <= i < after.len() ==> evals(
            lit(before[i]).plus(lit(probs[i]).minus(indicator(i, target)).times(lit(dloss))),
            #[trigger] after[i],
        )
}

/// The gradients of the first `n` losses are carried back into those of the logits. What lies
/// behind is as it was.
pub open spec fn losses_carried_back<T: Scalar>(
    dlogits0: Seq<T>,
    dlogits: Seq<T>,
    dlosses: Seq<T>,
    probs: Seq<T>,
    targets: Seq<i32>,
    n: int,
    v: int,
) -> bool {
    &&& dlogits.len() == dlogits0.len()
    &&& forall|r: int|
        0 <= r < n ==> logits_carried_back(
            row(dlogits0, r, v),
            #[trigger] row(dlogits, r, v),
            dlosses[r],
            row(probs, r, v),
            targets[r] as int,
        )
    &&& forall|j: int| n * v <= j < dlogits.len() ==> #[trigger] dlogits[j] == dlogits0[j]
}

/// The losses of `b` times `t` rows of `v` probabilities.
pub fn crossentropy_forward<T: Scalar>(
    out: &mut [T],
    probs: &[T],
    targets: &[i32],
    b: usize,
    t: usize,
    v: usize,
)
    requires
        b * t <= old(out).len(),
        (b * t) * v <= probs.len(),
        targets_in_range(targets@, b * t, v as int),
    ensures
        losses_of(old(out)@, final(out)@, probs@, targets@, b * t, v as int),
{
    let n: usize = b * t;
    let ghost out0 = out@;
    for r in 0..n
        invariant
            n <= out.len(),
            n * v <= probs.len(),
            targets_in_range(targets@, n as int, v as int),
            losses_of(out0, out@, probs@, targets@, r as int, v as int),
    {
        proof {
            lemma_row_bound(r as int, v as int, v as int, n as int);
        }
        let target = targets[r] as usize;
        let probs_bt = slice_subrange(probs, r * v, r * v + v);
        out[r] = Traced::quote(probs_bt[target]).ln().neg().v;
    }
}

fn carry_back_row<T: Scalar>(dlogits: &mut [T], dloss: T, probs: &[T], target: i32)
    requires
        old(dlogits).len() == probs.len(),
    ensures
        logits_carried_back(old(dlogits)@, final(dlogits)@, dloss, probs@, target as int),
{
    let v = probs.len();
    let d = Traced::quote(dloss);
    let ghost before = dlogits@;
    for i in 0..v
        invariant
            v == probs.len(),
            v == dlogits.len(),
            v == before.len(),
            d.ok(),
            d.e@ == lit(dloss),
            forall|j: int|
                0 <= j < v ==> if j < i {
                    evals(
                        lit(before[j]).plus(
                            lit(probs@[j]).minus(indicator(j, target as int)).times(lit(dloss)),
                        ),
                        #[trigger] dlogits@[j],
                    )
                } else {
                    dlogits@[j] == before[j]
                },
    {
        let p = Traced::quote(probs[i]);
        let hit = if target >= 0 && target as usize == i {
            Traced::one()
        } else {
            Traced::zero()
        };
        dlogits[i] = Traced::quote(dlogits[i]).plus(&p.minus(&hit).times(&d)).v;
    }
}

/// Adds the gradient of the losses through the softmax, over `b` times `t` rows of `v` classes,
/// to that of the logits.
pub fn crossentropy_softmax_backward<T: Scalar>(
    dlogits: &mut [T],
    dlosses: &[T],
    probs: &[T],
    targets: &[i32],
    b: usize,
    t: usize,
    v: usize,
)
    requires
        b * t <= dlosses.len(),
        b * t <= targets.len(),
        (b * t) * v <= old(dlogits).len(),
        (b * t) * v <= probs.len(),
    ensures
        losses_carried_back(
            old(dlogits)@,
            final(dlogits)@,
            dlosses@,
            probs@,
            targets@,
            b * t,
            v as int,
        ),
{
    let n: usize = b * t;
    let ghost dlogits0 = dlogits@;
    for r in 0..n
        invariant
            n <= dlosses.len(),
            n <= targets.len(),
            n * v <= dlogits.len(),
            n * v <= probs.len(),
            losses_carried_back(
                dlogits0,
                dlogits@,
                dlosses@,
                probs@,
                targets@,
                r as int,
                v as int,
            ),
    {
        proof {
            lemma_row_bound(r as int, v as int, v as int, n as int);
        }
        let ghost prior = dlogits@;
        let probs_bt = slice_subrange(probs, r * v, r * v + v);
        let dlogits_bt = window_mut(dlogits, r * v, v);
        carry_back_row(dlogits_bt, dlosses[r], probs_bt, targets[r]);
        proof {
            lemma_row_step(dlogits0, prior, r as int, v as int, n as int, dlogits_bt@);
        }
    }
}

} // verus!
