//! The softmax of rows of logits.

use vstd::prelude::*;
use vstd::slice::slice_subrange;

use crate::buffer::{lemma_row_bound, lemma_row_step, row, window_mut};
use crate::scalar::{evals, invert, inverts, lit, sum, total, Expr, Named, Scalar, Traced};

verus! {

/// The largest of the first `n` elements of `x`, as found by comparing each in turn with the
/// largest so far.
pub open spec fn largest<T>(x: Seq<T>, n: int) -> Expr<T>
    decreases n,
{
    if n <= 0 {
        Expr::Const(Named::NegInfinity)
    } else {
        lit(x[n - 1]).greater(largest(x, n - 1))
    }
}

/// `out` holds the probabilities of the logits `x`: `top` is the largest logit, `powers` are the
/// exponentials of the distances from it, `all` is their sum and `inv` its reciprocal.
pub open spec fn softmax_by<T: Scalar>(
    x: Seq<T>,
    out: Seq<T>,
    top: T,
    powers: Seq<T>,
    all: T,
    inv: T,
) -> bool {
    &&& evals(largest(x, x.len() as int), top)
    &&& powers.len() == x.len()
    &&& forall|i: int|
        0 <= i < x.len() ==> evals(lit(x[i]).minus(lit(top)).exp(), #[trigger] powers[i])
    &&& evals(total(powers, powers.len() as int), all)
    &&& inverts(all, inv)
    &&& out.len() == x.len()
    &&& forall|i: int|
        0 <= i < x.len() ==> evals(lit(powers[i]).times(lit(inv)), #[trigger] out[i])
}

/// `out` holds the probabilities of the logits `x`.
pub open spec fn softmax_of<T: Scalar>(x: Seq<T>, out: Seq<T>) -> bool {
    exists|top: T, powers: Seq<T>, all: T, inv: T| softmax_by(x, out, top, powers, all, inv)
}

/// The first `n` rows of `out` hold the probabilities of those of `logits`. What lies behind is
/// as it was.
pub open spec fn softmax_rows<T: Scalar>(
    out0: Seq<T>,
    out: Seq<T>,
    logits: Seq<T>,
    n: int,
    v: int,
) -> bool {
    &&& out.len() == out0.len()
    &&& forall|r: int| 0 <= r < n ==> softmax_of(row(logits, r, v), #[trigger] row(out, r, v))
    &&& forall|j: int| n * v <= j < out.len() ==> #[trigger] out[j] == out0[j]
}

fn softmax_row<T: Scalar>(out: &mut [T], x: &[T])
    requires
        old(out).len() == x.len(),
    ensures
        softmax_of(x@, final(out)@),
{
    let v = x.len();
    let mut top = Traced::neg_infinity();
    for i in 0..v
        invariant
            v == x.len(),
            top.ok(),
            top.e@ == largest(x@, i as int),
    {
        top = Traced::quote(x[i]).greater(&top);
    }
    let max_val = Traced::quote(top.v);
    for i in 0..v
        invariant
            v == x.len(),
            v == out.len(),
            max_val.ok(),
            max_val.e@ == lit(top.v),
            forall|j: int|
                0 <= j < i ==> evals(lit(x@[j]).minus(lit(top.v)).exp(), #[trigger] out@[j]),
    {
        let val = Traced::quote(x[i]).minus(&max_val).exp();
        out[i] = val.v;
    }
    let ghost powers = out@;
    let all = sum(out);
    let inv = Traced::quote(invert(all.v));
    for i in 0..v
        invariant
            v == out.len(),
            powers.len() == v,
            inv.ok(),
            inv.e@ == lit(inv.v),
            forall|j: int|
                0 <= j < v ==> if j < i {
                    evals(lit(powers[j]).times(lit(inv.v)), #[trigger] out@[j])
                } else {
                    out@[j] == powers[j]
                },
    {
        out[i] = Traced::quote(out[i]).times(&inv).v;
    }
    assert(softmax_by(x@, out@, top.v, powers, all.v, inv.v));
}

/// Turns `b` times `t` rows of `v` logits into probabilities.
pub fn softmax_forward<T: Scalar>(out: &mut [T], logits: &[T], b: usize, t: usize, v: usize)
    requires
        b * t <= usize::MAX,
        (b * t) * v <= old(out).len(),
        (b * t) * v <= logits.len(),
    ensures
        softmax_rows(old(out)@, final(out)@, logits@, b * t, v as int),
{
    let n: usize = b * t;
    let ghost out0 = out@;
    for r in 0..n
        invariant
            n * v <= out.len(),
            n * v <= logits.len(),
            softmax_rows(out0, out@, logits@, r as int, v as int),
    {
        proof {
            lemma_row_bound(r as int, v as int, v as int, n as int);
        }
        let ghost prior = out@;
        let x = slice_subrange(logits, r * v, r * v + v);
        let out_bt = window_mut(out, r * v, v);
        softmax_row(out_bt, x);
        proof {
            lemma_row_step(out0, prior, r as int, v as int, n as int, out_bt@);
        }
    }
}

} // verus!
