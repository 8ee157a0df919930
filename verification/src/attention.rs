//! Causal self-attention with several heads.
//!
//! A row of the input holds a query, a key and a value for each channel: `c` queries, `c` keys
//! and `c` values. The channels are shared out among `nh` heads of `c / nh` channels each.

use vstd::prelude::*;
use vstd::slice::slice_subrange;

use crate::buffer::{
    columns, lemma_columns, lemma_columns_agree, lemma_columns_apart, lemma_columns_prefix,
    lemma_columns_read_back, lemma_row_bound,
    lemma_row_step, lemma_rows_apart, lemma_splice_row, lemma_with_columns, put_columns, row,
    splice, take_columns, window_mut, with_columns,
};
use crate::matmul::{multiplies, multiply};
use crate::scalar::{
    evals, invert, inverts, lit, nought, sum, total, unit, Expr, Named, Scalar, Traced, Transpose,
};

verus! {

/// The factor that the products of queries and keys are scaled by.
pub open spec fn head_scale<T>(hs: int) -> Expr<T> {
    unit().over(Expr::Count(hs as usize).sqrt())
}

/// The largest of the first `n` elements of `x`.
pub open spec fn greatest<T>(x: Seq<T>, n: int) -> Expr<T>
    decreases n,
{
    if n <= 0 {
        Expr::Const(Named::NegInfinity)
    } else {
        greatest(x, n - 1).max(lit(x[n - 1]))
    }
}

/// The values met on the way from a query to its output.
pub struct Attention<T> {
    /// The product of the keys and the query, one for each key.
    pub scores: Seq<T>,
    /// The largest scaled score.
    pub top: T,
    /// The exponentials of the distances from it.
    pub powers: Seq<T>,
    /// Their sum.
    pub all: T,
    /// The reciprocal of the sum.
    pub inv: T,
}

/// The query of place `ti` meets the keys up to its own place. `pre` are the scaled scores, and
/// what they were before from there on; `att` is the attention paid to each place, none of it to
/// later ones; `out` is the sum of the values that it weighs.
pub open spec fn attends_by<T: Scalar>(
    q: Seq<T>,
    k: Seq<T>,
    v: Seq<T>,
    pre0: Seq<T>,
    pre: Seq<T>,
    att: Seq<T>,
    out: Seq<T>,
    ti: int,
    t: int,
    hs: int,
    by: Attention<T>,
) -> bool {
    let n = ti + 1;
    &&& multiplies(
        Transpose::Plain,
        Transpose::Plain,
        n,
        1,
        hs,
        k.subrange(0, n * hs),
        row(q, ti, hs),
        by.scores,
    )
    &&& pre.len() == t
    &&& forall|i: int|
        0 <= i < t ==> if i < n {
            evals(lit(by.scores[i]).times(head_scale(hs)), #[trigger] pre[i])
        } else {
            pre[i] == pre0[i]
        }
    &&& evals(greatest(pre, n), by.top)
    &&& by.powers.len() == n
    &&& forall|i: int|
        0 <= i < n ==> evals(
            lit(pre[i]).minus(lit(by.top)).exp().min(Expr::Const(Named::MaxValue)),
            #[trigger] by.powers[i],
        )
    &&& evals(total(by.powers, n), by.all)
    &&& inverts(by.all, by.inv)
    &&& att.len() == t
    &&& forall|i: int|
        0 <= i < t ==> if i < n {
            evals(lit(by.powers[i]).times(lit(by.inv)), #[trigger] att[i])
        } else {
            evals(nought(), att[i])
        }
    &&& multiplies(
        Transpose::Plain,
        Transpose::Plain,
        1,
        hs,
        n,
        att.subrange(0, n),
        v.subrange(0, n * hs),
        out,
    )
}

/// The query of place `ti` meets the keys up to its own place.
pub open spec fn attends<T: Scalar>(
    q: Seq<T>,
    k: Seq<T>,
    v: Seq<T>,
    pre0: Seq<T>,
    pre: Seq<T>,
    att: Seq<T>,
    out: Seq<T>,
    ti: int,
    t: int,
    hs: int,
) -> bool {
    exists|by: Attention<T>| attends_by(q, k, v, pre0, pre, att, out, ti, t, hs, by)
}

/// Each of the first `n` queries of a head meets the keys up to its own place, with its scaled
/// scores, its attention and its output in the rows of `pre`, `att` and `out`.
pub open spec fn head_attends<T: Scalar>(
    q: Seq<T>,
    k: Seq<T>,
    v: Seq<T>,
    pre0: Seq<T>,
    pre: Seq<T>,
    att: Seq<T>,
    out: Seq<T>,
    n: int,
    t: int,
    hs: int,
) -> bool {
    forall|ti: int|
        0 <= ti < n ==> #[trigger] attends(
            q,
            k,
            v,
            row(pre0, ti, t),
            row(pre, ti, t),
            row(att, ti, t),
            row(out, ti, hs),
            ti,
            t,
            hs,
        )
}

fn attend<T: Scalar>(
    pre: &mut [T],
    att: &mut [T],
    q: &[T],
    k: &[T],
    v: &[T],
    ti: usize,
    t: usize,
    hs: usize,
    scale: &Traced<T>,
) -> (out: Vec<T>)
    requires
        ti < t <= i32::MAX,
        hs <= i32::MAX,
        old(pre).len() == t,
        old(att).len() == t,
        q.len() == t * hs,
        k.len() == t * hs,
        v.len() == t * hs,
        scale.ok(),
        scale.e@ == head_scale::<T>(hs as int),
    ensures
        attends(
            q@,
            k@,
            v@,
            old(pre)@,
            final(pre)@,
            final(att)@,
            out@,
            ti as int,
            t as int,
            hs as int,
        ),
{
    let n: usize = ti + 1;
    proof {
        lemma_row_bound(ti as int, hs as int, hs as int, t as int);
    }
    let ghost pre0 = pre@;
    let query = slice_subrange(q, ti * hs, ti * hs + hs);
    let keys = slice_subrange(k, 0, n * hs);
    let scores = multiply(Transpose::Plain, Transpose::Plain, n, 1, hs, keys, query);
    let mut top = Traced::neg_infinity();
    for i in 0..n
        invariant
            n <= t,
            scores.len() == n,
            pre.len() == t,
            pre0.len() == t,
            scale.ok(),
            scale.e@ == head_scale::<T>(hs as int),
            forall|j: int|
                0 <= j < t ==> if j < i {
                    evals(lit(scores@[j]).times(head_scale(hs as int)), #[trigger] pre@[j])
                } else {
                    pre@[j] == pre0[j]
                },
    {
        pre[i] = Traced::quote(scores[i]).times(scale).v;
    }
    for i in 0..n
        invariant
            n <= pre.len(),
            top.ok(),
            top.e@ == greatest(pre@, i as int),
    {
        top = top.max(&Traced::quote(pre[i]));
    }
    let maxval = Traced::quote(top.v);
    let limit = Traced::<T>::max_value();
    let mut powers: Vec<T> = Vec::new();
    for i in 0..n
        invariant
            n <= pre.len(),
            powers.len() == i,
            maxval.ok(),
            maxval.e@ == lit(top.v),
            limit.ok(),
            limit.e@ == Expr::<T>::Const(Named::MaxValue),
            forall|j: int|
                0 <= j < i ==> evals(
                    lit(pre@[j]).minus(lit(top.v)).exp().min(Expr::Const(Named::MaxValue)),
                    #[trigger] powers@[j],
                ),
    {
        powers.push(Traced::quote(pre[i]).minus(&maxval).exp().min(&limit).v);
    }
    let all = sum(powers.as_slice());
    let inv = Traced::quote(invert(all.v));
    let zero = Traced::<T>::zero();
    for i in 0..t
        invariant
            n <= t,
            att.len() == t,
            powers.len() == n,
            inv.ok(),
            inv.e@ == lit(inv.v),
            zero.ok(),
            zero.e@ == nought::<T>(),
            forall|j: int|
                0 <= j < i ==> if j < n {
                    evals(lit(powers@[j]).times(lit(inv.v)), #[trigger] att@[j])
                } else {
                    evals(nought(), att@[j])
                },
    {
        att[i] = if i < n {
            Traced::quote(powers[i]).times(&inv).v
        } else {
            zero.v
        };
    }
    proof {
        assert(1 * n == n);
    }
    let weights = slice_subrange(att, 0, n);
    let values = slice_subrange(v, 0, n * hs);
    let out = multiply(Transpose::Plain, Transpose::Plain, 1, hs, n, weights, values);
    proof {
        let by = Attention {
            scores: scores@,
            top: top.v,
            powers: powers@,
            all: all.v,
            inv: inv.v,
        };
        assert(attends_by(
            q@,
            k@,
            v@,
            pre0,
            pre@,
            att@,
            out@,
            ti as int,
            t as int,
            hs as int,
            by,
        ));
    }
    out
}

fn head_forward<T: Scalar>(
    pre: &mut [T],
    att: &mut [T],
    q: &[T],
    k: &[T],
    v: &[T],
    t: usize,
    hs: usize,
    scale: &Traced<T>,
) -> (out: Vec<T>)
    requires
        t <= i32::MAX,
        hs <= i32::MAX,
        old(pre).len() == t * t,
        old(att).len() == t * t,
        q.len() == t * hs,
        k.len() == t * hs,
        v.len() == t * hs,
        scale.ok(),
        scale.e@ == head_scale::<T>(hs as int),
    ensures
        final(pre)@.len() == t * t,
        final(att)@.len() == t * t,
        out@.len() == t * hs,
        head_attends(
            q@,
            k@,
            v@,
            old(pre)@,
            final(pre)@,
            final(att)@,
            out@,
            t as int,
            t as int,
            hs as int,
        ),
{
    let ghost pre0 = pre@;
    let ghost att0 = att@;
    let mut out: Vec<T> = Vec::new();
    assert(0 * hs == 0) by (nonlinear_arith);
    for ti in 0..t
        invariant
            t <= i32::MAX,
            hs <= i32::MAX,
            pre.len() == t * t,
            att.len() == t * t,
            pre0.len() == t * t,
            att0.len() == t * t,
            q.len() == t * hs,
            k.len() == t * hs,
            v.len() == t * hs,
            scale.ok(),
            scale.e@ == head_scale::<T>(hs as int),
            out@.len() == ti * hs,
            forall|j: int| ti * t <= j < pre@.len() ==> #[trigger] pre@[j] == pre0[j],
            forall|j: int| ti * t <= j < att@.len() ==> #[trigger] att@[j] == att0[j],
            head_attends(
                q@,
                k@,
                v@,
                pre0,
                pre@,
                att@,
                out@,
                ti as int,
                t as int,
                hs as int,
            ),
    {
        proof {
            lemma_row_bound(ti as int, t as int, t as int, t as int);
            lemma_row_bound(ti as int, hs as int, hs as int, t as int);
        }
        let ghost pre1 = pre@;
        let ghost att1 = att@;
        let ghost out1 = out@;
        let pre_t = window_mut(pre, ti * t, t);
        let att_t = window_mut(att, ti * t, t);
        let mut out_t = attend(pre_t, att_t, q, k, v, ti, t, hs, scale);
        let ghost o = out_t@;
        out.append(&mut out_t);
        proof {
            lemma_row_step(pre0, pre1, ti as int, t as int, t as int, pre_t@);
            lemma_row_step(att0, att1, ti as int, t as int, t as int, att_t@);
            assert(row(out@, ti as int, hs as int) =~= o);
            assert forall|r: int| 0 <= r < ti + 1 implies #[trigger] attends(
                q@,
                k@,
                v@,
                row(pre0, r, t as int),
                row(pre@, r, t as int),
                row(att@, r, t as int),
                row(out@, r, hs as int),
                r,
                t as int,
                hs as int,
            ) by {
                if r < ti {
                    lemma_row_bound(r, hs as int, hs as int, ti as int);
                    assert(row(out@, r, hs as int) =~= row(out1, r, hs as int));
                    assert(attends(
                        q@,
                        k@,
                        v@,
                        row(pre0, r, t as int),
                        row(pre1, r, t as int),
                        row(att1, r, t as int),
                        row(out1, r, hs as int),
                        r,
                        t as int,
                        hs as int,
                    ));
                }
            }
        }
    }
    out
}

/// What head `g` of all sequences is about: the columns of its sequence that hold its queries
/// (`part` 0), keys (`part` 1) or values (`part` 2).
pub open spec fn head_part<T>(inp: Seq<T>, g: int, part: int, t: int, c: int, nh: int) -> Seq<T> {
    let hs = c / nh;
    columns(row(inp, g / nh, t * (3 * c)), part * c + (g % nh) * hs, hs, 3 * c, t)
}

/// The columns of the output that belong to head `g` of all sequences.
pub open spec fn head_output<T>(out: Seq<T>, g: int, t: int, c: int, nh: int) -> Seq<T> {
    let hs = c / nh;
    columns(row(out, g / nh, t * c), (g % nh) * hs, hs, c, t)
}

/// The columns of the output of sequence `bi` that belong to no head.
pub open spec fn no_head_output<T>(out: Seq<T>, bi: int, t: int, c: int, nh: int) -> Seq<T> {
    let hs = c / nh;
    columns(row(out, bi, t * c), nh * hs, c - nh * hs, c, t)
}

/// The first `n` heads, counted over all `b` sequences, have attended. All else is as it was.
pub open spec fn heads_attend<T: Scalar>(
    out0: Seq<T>,
    out: Seq<T>,
    pre0: Seq<T>,
    pre: Seq<T>,
    att0: Seq<T>,
    att: Seq<T>,
    inp: Seq<T>,
    n: int,
    b: int,
    t: int,
    c: int,
    nh: int,
) -> bool {
    &&& out.len() == out0.len()
    &&& pre.len() == pre0.len()
    &&& att.len() == att0.len()
    &&& forall|g: int|
        0 <= g < n ==> head_attends(
            head_part(inp, g, 0, t, c, nh),
            head_part(inp, g, 1, t, c, nh),
            head_part(inp, g, 2, t, c, nh),
            row(pre0, g, t * t),
            #[trigger] row(pre, g, t * t),
            row(att, g, t * t),
            head_output(out, g, t, c, nh),
            t,
            t,
            c / nh,
        )
    &&& forall|bi: int|
        0 <= bi < b ==> #[trigger] no_head_output(out, bi, t, c, nh) == no_head_output(
            out0,
            bi,
            t,
            c,
            nh,
        )
    &&& forall|j: int| b * (t * c) <= j < out.len() ==> #[trigger] out[j] == out0[j]
    &&& forall|j: int| n * (t * t) <= j < pre.len() ==> #[trigger] pre[j] == pre0[j]
    &&& forall|j: int| n * (t * t) <= j < att.len() ==> #[trigger] att[j] == att0[j]
}

/// The channels of head `h` of `nh` lie within the `c` channels, apart from those of the others
/// and from those of none.
pub proof fn lemma_head_bounds(h: int, nh: int, c: int)
    requires
        0 <= h < nh,
        0 <= c,
    ensures
        0 <= c / nh <= c,
        0 <= nh * (c / nh) <= c,
        0 <= h * (c / nh),
        h * (c / nh) + c / nh <= nh * (c / nh),
        forall|h2: int| 0 <= h2 < h ==> #[trigger] (h2 * (c / nh)) + c / nh <= h * (c / nh),
{
    let hs = c / nh;
    assert(0 <= hs && nh * hs <= c && hs <= c) by (nonlinear_arith)
        requires
            hs == c / nh,
            0 < nh,
            0 <= c,
    ;
    lemma_row_bound(h, hs, hs, nh);
    assert forall|h2: int| 0 <= h2 < h implies #[trigger] (h2 * hs) + hs <= h * hs by {
        lemma_rows_apart(h2, h, hs);
    }
}

/// Head `g` of `b * nh` is a head of one of the `b` sequences.
pub proof fn lemma_head_of(g: int, b: int, nh: int)
    requires
        0 <= g < b * nh,
        0 < nh,
    ensures
        0 <= g / nh < b,
        0 <= g % nh < nh,
        g == (g / nh) * nh + g % nh,
{
    assert(0 <= g / nh < b && 0 <= g % nh < nh && g == (g / nh) * nh + g % nh) by (nonlinear_arith)
        requires
            0 <= g < b * nh,
            0 < nh,
    ;
}

/// Replacing the output of one head leaves those of the others, and what belongs to none, as
/// they are.
proof fn lemma_put_head<T>(out: Seq<T>, g: int, o: Seq<T>, b: int, t: int, c: int, nh: int)
    requires
        0 <= g < b * nh,
        0 < nh,
        0 <= t,
        0 <= c,
        b * (t * c) <= out.len(),
        o.len() == t * (c / nh),
    ensures
        ({
            let hs = c / nh;
            let at = (g / nh) * (t * c);
            let block = with_columns(row(out, g / nh, t * c), (g % nh) * hs, hs, c, t, o);
            let after = splice(out, at, block);
            &&& block.len() == t * c
            &&& head_output(after, g, t, c, nh) == o
            &&& forall|g2: int|
                0 <= g2 < g ==> #[trigger] head_output(after, g2, t, c, nh) == head_output(
                    out,
                    g2,
                    t,
                    c,
                    nh,
                )
            &&& forall|bi: int|
                0 <= bi < b ==> #[trigger] no_head_output(after, bi, t, c, nh) == no_head_output(
                    out,
                    bi,
                    t,
                    c,
                    nh,
                )
            &&& forall|j: int| b * (t * c) <= j < out.len() ==> #[trigger] after[j] == out[j]
        }),
{
    let hs = c / nh;
    let bi = g / nh;
    let h = g % nh;
    lemma_head_of(g, b, nh);
    lemma_head_bounds(h, nh, c);
    assert(0 <= t * c) by (nonlinear_arith)
        requires
            0 <= t,
            0 <= c,
    ;
    lemma_row_bound(bi, t * c, t * c, b);
    let old_block = row(out, bi, t * c);
    let block = with_columns(old_block, h * hs, hs, c, t, o);
    let after = splice(out, bi * (t * c), block);
    lemma_with_columns(old_block, h * hs, hs, c, t, o);
    lemma_columns_read_back(old_block, h * hs, hs, c, t, o);
    lemma_splice_row(out, bi, t * c, block);
    assert forall|g2: int| 0 <= g2 < g implies #[trigger] head_output(after, g2, t, c, nh)
        == head_output(out, g2, t, c, nh) by {
        lemma_head_of(g2, b, nh);
        if g2 / nh == bi {
            let h2 = g2 % nh;
            lemma_head_bounds(h2, nh, c);
            assert(h2 < h);
            assert((h2 * hs) + hs <= h * hs);
            lemma_columns_apart(old_block, h * hs, hs, c, t, o, h2 * hs, hs);
        } else {
            lemma_row_bound(g2 / nh, t * c, t * c, b);
            assert(row(after, g2 / nh, t * c) == row(out, g2 / nh, t * c));
        }
    }
    assert forall|bj: int| 0 <= bj < b implies #[trigger] no_head_output(after, bj, t, c, nh)
        == no_head_output(out, bj, t, c, nh) by {
        if bj == bi {
            lemma_columns_apart(old_block, h * hs, hs, c, t, o, nh * hs, c - nh * hs);
        } else {
            lemma_row_bound(bj, t * c, t * c, b);
            assert(row(after, bj, t * c) == row(out, bj, t * c));
        }
    }
}

/// Lets `nh` heads of each of `b` sequences of `t` rows attend. The scaled scores are kept in
/// `preatt` and the attention in `att`.
pub fn attention_forward<T: Scalar>(
    out: &mut [T],
    preatt: &mut [T],
    att: &mut [T],
    inp: &[T],
    b: usize,
    t: usize,
    c: usize,
    nh: usize,
)
    requires
        nh > 0,
        b > 0 ==> t <= i32::MAX,
        c as int / nh as int <= i32::MAX,
        3 * c <= usize::MAX,
        b * nh <= usize::MAX,
        b * (t * c) <= old(out).len(),
        (b * nh) * (t * t) <= old(preatt).len(),
        (b * nh) * (t * t) <= old(att).len(),
        b * (t * (3 * c)) <= inp.len(),
    ensures
        heads_attend(
            old(out)@,
            final(out)@,
            old(preatt)@,
            final(preatt)@,
            old(att)@,
            final(att)@,
            inp@,
            b * nh,
            b as int,
            t as int,
            c as int,
            nh as int,
        ),
{
    let c3: usize = c * 3;
    let hs: usize = c / nh;
    let n: usize = b * nh;
    let scale = Traced::one().over(&Traced::count(hs).sqrt());
    let ghost out0 = out@;
    let ghost pre0 = preatt@;
    let ghost att0 = att@;
    for g in 0..n
        invariant
            nh > 0,
            b > 0 ==> t <= i32::MAX,
            c as int / nh as int <= i32::MAX,
            n == b * nh,
            c3 == 3 * c,
            hs == c / nh,
            b * (t * c) <= out.len(),
            n * (t * t) <= preatt.len(),
            n * (t * t) <= att.len(),
            b * (t * c3) <= inp.len(),
            scale.ok(),
            scale.e@ == head_scale::<T>(hs as int),
            heads_attend(
                out0,
                out@,
                pre0,
                preatt@,
                att0,
                att@,
                inp@,
                g as int,
                b as int,
                t as int,
                c as int,
                nh as int,
            ),
    {
        let bi: usize = g / nh;
        let h: usize = g % nh;
        proof {
            lemma_head_of(g as int, b as int, nh as int);
            lemma_head_bounds(h as int, nh as int, c as int);
            assert(0 <= t * c && 0 <= t * t && 0 <= t * c3) by (nonlinear_arith);
            lemma_row_bound(bi as int, t * c, t * c, b as int);
            lemma_row_bound(bi as int, t * c3, t * c3, b as int);
            lemma_row_bound(g as int, t * t, t * t, n as int);
        }
        let ghost out1 = out@;
        let ghost pre1 = preatt@;
        let ghost att1 = att@;
        let inp_b = slice_subrange(inp, bi * (t * c3), bi * (t * c3) + t * c3);
        let q = take_columns(inp_b, h * hs, hs, c3, t);
        let k = take_columns(inp_b, c + h * hs, hs, c3, t);
        let v = take_columns(inp_b, 2 * c + h * hs, hs, c3, t);
        proof {
            lemma_columns(inp_b@, h * hs, hs as int, c3 as int, t as int);
            lemma_columns(inp_b@, c + h * hs, hs as int, c3 as int, t as int);
            lemma_columns(inp_b@, 2 * c + h * hs, hs as int, c3 as int, t as int);
        }
        let pre_g = window_mut(preatt, g * (t * t), t * t);
        let att_g = window_mut(att, g * (t * t), t * t);
        let o = head_forward(
            pre_g,
            att_g,
            q.as_slice(),
            k.as_slice(),
            v.as_slice(),
            t,
            hs,
            &scale,
        );
        let out_b = window_mut(out, bi * (t * c), t * c);
        put_columns(out_b, h * hs, hs, c, t, o.as_slice());
        proof {
            lemma_row_step(pre0, pre1, g as int, t * t, n as int, pre_g@);
            lemma_row_step(att0, att1, g as int, t * t, n as int, att_g@);
            lemma_put_head(out1, g as int, o@, b as int, t as int, c as int, nh as int);
        }
    }
}

/// What a head is about up to place `ti` depends on nothing but the places up to it.
proof fn lemma_head_part_causal<T>(
    inp1: Seq<T>,
    inp2: Seq<T>,
    g: int,
    part: int,
    ti: int,
    t: int,
    c: int,
    nh: int,
)
    requires
        0 <= ti < t,
        0 < nh,
        0 <= c,
        0 <= g,
        0 <= part < 3,
        row(inp1, g / nh, t * (3 * c)).len() == t * (3 * c),
        row(inp2, g / nh, t * (3 * c)).len() == t * (3 * c),
        forall|r: int|
            0 <= r <= ti ==> #[trigger] row(row(inp1, g / nh, t * (3 * c)), r, 3 * c) == row(
                row(inp2, g / nh, t * (3 * c)),
                r,
                3 * c,
            ),
    ensures
        head_part(inp1, g, part, t, c, nh).subrange(0, (ti + 1) * (c / nh)) == head_part(
            inp2,
            g,
            part,
            t,
            c,
            nh,
        ).subrange(0, (ti + 1) * (c / nh)),
        row(head_part(inp1, g, part, t, c, nh), ti, c / nh) == row(
            head_part(inp2, g, part, t, c, nh),
            ti,
            c / nh,
        ),
{
    let hs = c / nh;
    let h = g % nh;
    lemma_head_bounds(h, nh, c);
    let x = row(inp1, g / nh, t * (3 * c));
    let y = row(inp2, g / nh, t * (3 * c));
    let at = part * c + h * hs;
    assert(0 <= part * c <= 2 * c) by (nonlinear_arith)
        requires
            0 <= part < 3,
            0 <= c,
    ;
    lemma_row_bound(ti, 3 * c, 3 * c, t);
    lemma_columns_prefix(x, at, hs, 3 * c, ti + 1, t);
    lemma_columns_prefix(y, at, hs, 3 * c, ti + 1, t);
    lemma_columns_agree(x, y, at, hs, 3 * c, ti + 1);
    let p = head_part(inp1, g, part, t, c, nh);
    let q = head_part(inp2, g, part, t, c, nh);
    lemma_row_bound(ti, hs, hs, ti + 1);
    assert(row(p, ti, hs) =~= row(p.subrange(0, (ti + 1) * hs), ti, hs));
    assert(row(q, ti, hs) =~= row(q.subrange(0, (ti + 1) * hs), ti, hs));
}

/// Attention is causal: the scores, the attention and the output of place `ti` depend on nothing
/// but the places up to it of the same sequence. What they may be for one input they may be for
/// every input that agrees with it there.
pub proof fn lemma_attention_causal<T: Scalar>(
    inp1: Seq<T>,
    inp2: Seq<T>,
    g: int,
    ti: int,
    t: int,
    c: int,
    nh: int,
    pre0: Seq<T>,
    pre: Seq<T>,
    att: Seq<T>,
    out: Seq<T>,
)
    requires
        0 <= ti < t,
        0 < nh,
        0 <= c,
        0 <= g,
        row(inp1, g / nh, t * (3 * c)).len() == t * (3 * c),
        row(inp2, g / nh, t * (3 * c)).len() == t * (3 * c),
        forall|r: int|
            0 <= r <= ti ==> #[trigger] row(row(inp1, g / nh, t * (3 * c)), r, 3 * c) == row(
                row(inp2, g / nh, t * (3 * c)),
                r,
                3 * c,
            ),
        attends(
            head_part(inp1, g, 0, t, c, nh),
            head_part(inp1, g, 1, t, c, nh),
            head_part(inp1, g, 2, t, c, nh),
            pre0,
            pre,
            att,
            out,
            ti,
            t,
            c / nh,
        ),
    ensures
        attends(
            head_part(inp2, g, 0, t, c, nh),
            head_part(inp2, g, 1, t, c, nh),
            head_part(inp2, g, 2, t, c, nh),
            pre0,
            pre,
            att,
            out,
            ti,
            t,
            c / nh,
        ),
{
    lemma_head_part_causal(inp1, inp2, g, 0, ti, t, c, nh);
    lemma_head_part_causal(inp1, inp2, g, 1, ti, t, c, nh);
    lemma_head_part_causal(inp1, inp2, g, 2, ti, t, c, nh);
    let hs = c / nh;
    let by = choose|by: Attention<T>|
        attends_by(
            head_part(inp1, g, 0, t, c, nh),
            head_part(inp1, g, 1, t, c, nh),
            head_part(inp1, g, 2, t, c, nh),
            pre0,
            pre,
            att,
            out,
            ti,
            t,
            hs,
            by,
        );
    assert(attends_by(
        head_part(inp2, g, 0, t, c, nh),
        head_part(inp2, g, 1, t, c, nh),
        head_part(inp2, g, 2, t, c, nh),
        pre0,
        pre,
        att,
        out,
        ti,
        t,
        hs,
        by,
    ));
}

} // verus!
