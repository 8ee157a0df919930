//! The gradient of causal self-attention.

use vstd::arithmetic::div_mod::lemma_fundamental_div_mod_converse;
use vstd::prelude::*;
use vstd::slice::slice_subrange;

use crate::attention::{
    head_output, head_part, head_scale, lemma_head_bounds,
};
use crate::buffer::{
    columns, lay_over, lemma_columns, lemma_columns_apart, lemma_columns_read_back, lemma_row_bound,
    lemma_row_step, lemma_rows_apart, lemma_splice_row, lemma_with_columns, put_columns, resized,
    row, splice, take_columns, window_mut, with_columns, zeros,
};
use crate::crossentropy::indicator;
use crate::parallel::map_indices;
use crate::scalar::{evals, lemma_chain, lemma_lit, lit, nought, Expr, Scalar, Traced};

verus! {

/// The gradient of the attention paid to one place, after the first `m` channels of its value
/// `v` have met the gradient `dout` of the output.
pub open spec fn attention_gradient<T>(
    base: Expr<T>,
    v: Seq<T>,
    dout: Seq<T>,
    m: int,
) -> Expr<T>
    decreases m,
{
    if m <= 0 {
        base
    } else {
        attention_gradient(base, v, dout, m - 1).plus(lit(v[m - 1]).times(lit(dout[m - 1])))
    }
}

/// The gradient of the score of place `t3`, summed over the attention paid to the first `m`
/// places.
pub open spec fn score_gradient<T>(att: Seq<T>, datt: Seq<T>, t3: int, m: int) -> Expr<T>
    decreases m,
{
    if m <= 0 {
        nought()
    } else {
        let t2 = m - 1;
        score_gradient(att, datt, t3, m - 1).plus(
            lit(att[t2]).times(indicator(t2, t3).minus(lit(att[t3]))).times(lit(datt[t2])),
        )
    }
}

/// The gradient of the unscaled score of place `t2`.
pub open spec fn scaled_gradient<T>(dpre: Seq<T>, t2: int, hs: int) -> Expr<T> {
    lit(dpre[t2]).times(head_scale(hs))
}

/// The gradient of channel `i` of a query, summed over the first `m` keys.
pub open spec fn query_gradient<T>(k: Seq<T>, dpre: Seq<T>, i: int, hs: int, m: int) -> Expr<T>
    decreases m,
{
    if m <= 0 {
        nought()
    } else {
        query_gradient(k, dpre, i, hs, m - 1).plus(
            lit(row(k, m - 1, hs)[i]).times(scaled_gradient(dpre, m - 1, hs)),
        )
    }
}

/// The gradient of channel `i` of the key of place `t2`, after the first `n` queries.
pub open spec fn key_gradient<T>(
    base: Expr<T>,
    q: Seq<T>,
    dpre: Seq<T>,
    t2: int,
    i: int,
    t: int,
    hs: int,
    n: int,
) -> Expr<T>
    decreases n,
{
    if n <= 0 {
        base
    } else {
        let prev = key_gradient(base, q, dpre, t2, i, t, hs, n - 1);
        if t2 <= n - 1 {
            prev.plus(
                lit(row(q, n - 1, hs)[i]).times(scaled_gradient(row(dpre, n - 1, t), t2, hs)),
            )
        } else {
            prev
        }
    }
}

/// The gradient of channel `i` of the value of place `t2`, after the first `n` queries.
pub open spec fn value_gradient<T>(
    base: Expr<T>,
    att: Seq<T>,
    dout: Seq<T>,
    t2: int,
    i: int,
    t: int,
    hs: int,
    n: int,
) -> Expr<T>
    decreases n,
{
    if n <= 0 {
        base
    } else {
        let prev = value_gradient(base, att, dout, t2, i, t, hs, n - 1);
        if t2 <= n - 1 {
            prev.plus(lit(row(att, n - 1, t)[t2]).times(lit(row(dout, n - 1, hs)[i])))
        } else {
            prev
        }
    }
}

/// The gradients of the attention `att` that the first `n` places get, and of their scores. They
/// are added to what was there. The other places keep theirs.
pub open spec fn scores_carried_back<T: Scalar>(
    datt0: Seq<T>,
    datt: Seq<T>,
    dpre0: Seq<T>,
    dpre: Seq<T>,
    v: Seq<T>,
    att: Seq<T>,
    dout: Seq<T>,
    n: int,
    t: int,
    hs: int,
) -> bool {
    &&& datt.len() == t
    &&& dpre.len() == t
    &&& forall|i: int|
        0 <= i < t ==> if i < n {
            evals(attention_gradient(lit(datt0[i]), row(v, i, hs), dout, hs), #[trigger] datt[i])
        } else {
            datt[i] == datt0[i]
        }
    &&& forall|i: int|
        0 <= i < t ==> if i < n {
            evals(lit(dpre0[i]).plus(score_gradient(att, datt, i, n)), #[trigger] dpre[i])
        } else {
            dpre[i] == dpre0[i]
        }
}

/// `dq` is the gradient `dq0` of a query with that from the first `n` keys added.
pub open spec fn query_carried_back<T: Scalar>(
    dq0: Seq<T>,
    dq: Seq<T>,
    k: Seq<T>,
    dpre: Seq<T>,
    n: int,
    hs: int,
) -> bool {
    &&& dq.len() == dq0.len()
    &&& forall|i: int|
        0 <= i < dq.len() ==> evals(
            lit(dq0[i]).plus(query_gradient(k, dpre, i, hs, n)),
            #[trigger] dq[i],
        )
}

/// `dk` is the gradient `dk0` of the key of place `t2` with that from the first `n` queries
/// added.
pub open spec fn key_carried_back<T: Scalar>(
    dk0: Seq<T>,
    dk: Seq<T>,
    q: Seq<T>,
    dpre: Seq<T>,
    t2: int,
    t: int,
    hs: int,
    n: int,
) -> bool {
    &&& dk.len() == dk0.len()
    &&& forall|i: int|
        0 <= i < dk.len() ==> evals(
            key_gradient(lit(dk0[i]), q, dpre, t2, i, t, hs, n),
            #[trigger] dk[i],
        )
}

/// `dv` is the gradient `dv0` of the value of place `t2` with that from the first `n` queries
/// added.
pub open spec fn value_carried_back<T: Scalar>(
    dv0: Seq<T>,
    dv: Seq<T>,
    att: Seq<T>,
    dout: Seq<T>,
    t2: int,
    t: int,
    hs: int,
    n: int,
) -> bool {
    &&& dv.len() == dv0.len()
    &&& forall|i: int|
        0 <= i < dv.len() ==> evals(
            value_gradient(lit(dv0[i]), att, dout, t2, i, t, hs, n),
            #[trigger] dv[i],
        )
}

/// `after` is `before` with `w` times the elements of `x` added.
pub open spec fn weighted_added<T: Scalar>(
    before: Seq<T>,
    after: Seq<T>,
    w: Expr<T>,
    x: Seq<T>,
) -> bool {
    &&& after.len() == before.len()
    &&& forall|i: int|
        0 <= i < after.len() ==> evals(
            lit(before[i]).plus(w.times(lit(x[i]))),
            #[trigger] after[i],
        )
}

/// `after` is `before` with the elements of `x` times `w` added.
pub open spec fn multiple_added<T: Scalar>(
    before: Seq<T>,
    after: Seq<T>,
    x: Seq<T>,
    w: Expr<T>,
) -> bool {
    &&& after.len() == before.len()
    &&& forall|i: int|
        0 <= i < after.len() ==> evals(
            lit(before[i]).plus(lit(x[i]).times(w)),
            #[trigger] after[i],
        )
}

/// One place: the value `v` meets the gradient of the output, which goes on to the value by the
/// attention `w`.
fn value_back<T: Scalar>(dv: &mut [T], base: T, v: &[T], dout: &[T], w: T) -> (d: T)
    requires
        old(dv).len() == dout.len(),
        v.len() == dout.len(),
    ensures
        evals(attention_gradient(lit(base), v@, dout@, dout@.len() as int), d),
        weighted_added(old(dv)@, final(dv)@, lit(w), dout@),
{
    let ghost before = dv@;
    let mut acc = Traced::quote(base);
    let weight = Traced::quote(w);
    for i in 0..dout.len()
        invariant
            dv.len() == dout.len(),
            v.len() == dout.len(),
            before.len() == dout.len(),
            weight.ok(),
            weight.e@ == lit(w),
            acc.ok(),
            acc.e@ == attention_gradient(lit(base), v@, dout@, i as int),
            forall|j: int|
                0 <= j < dv@.len() ==> if j < i {
                    evals(
                        lit(before[j]).plus(lit(w).times(lit(dout@[j]))),
                        #[trigger] dv@[j],
                    )
                } else {
                    dv@[j] == before[j]
                },
    {
        let d = Traced::quote(dout[i]);
        acc = acc.plus(&Traced::quote(v[i]).times(&d));
        dv[i] = Traced::quote(dv[i]).plus(&weight.times(&d)).v;
    }
    acc.v
}

/// The gradients of the attention that one query pays, and of the values that it weighs.
fn values_back<T: Scalar>(
    datt: &mut [T],
    dv: &mut [T],
    v: &[T],
    att: &[T],
    dout: &[T],
    n: usize,
    t: usize,
)
    requires
        n <= t,
        old(datt).len() == t,
        att.len() == t,
        old(dv).len() == t * dout.len(),
        v.len() == t * dout.len(),
    ensures
        final(datt)@.len() == t,
        forall|i: int|
            0 <= i < t ==> if i < n {
                evals(
                    attention_gradient(
                        lit(old(datt)@[i]),
                        row(v@, i, dout@.len() as int),
                        dout@,
                        dout@.len() as int,
                    ),
                    #[trigger] final(datt)@[i],
                )
            } else {
                final(datt)@[i] == old(datt)@[i]
            },
        final(dv)@.len() == old(dv)@.len(),
        forall|r: int|
            0 <= r < n ==> weighted_added(
                row(old(dv)@, r, dout@.len() as int),
                #[trigger] row(final(dv)@, r, dout@.len() as int),
                lit(att@[r]),
                dout@,
            ),
        forall|j: int|
            n * dout@.len() <= j < final(dv)@.len() ==> #[trigger] final(dv)@[j] == old(dv)@[j],
{
    let hs = dout.len();
    let ghost datt0 = datt@;
    let ghost dv0 = dv@;
    for r in 0..n
        invariant
            n <= t,
            hs == dout.len(),
            datt.len() == t,
            datt0.len() == t,
            att.len() == t,
            dv.len() == t * hs,
            dv0.len() == t * hs,
            v.len() == t * hs,
            forall|i: int|
                0 <= i < t ==> if i < r {
                    evals(
                        attention_gradient(
                            lit(datt0[i]),
                            row(v@, i, hs as int),
                            dout@,
                            hs as int,
                        ),
                        #[trigger] datt@[i],
                    )
                } else {
                    datt@[i] == datt0[i]
                },
            forall|q: int|
                0 <= q < r ==> weighted_added(
                    row(dv0, q, hs as int),
                    #[trigger] row(dv@, q, hs as int),
                    lit(att@[q]),
                    dout@,
                ),
            forall|j: int| r * hs <= j < dv@.len() ==> #[trigger] dv@[j] == dv0[j],
    {
        proof {
            lemma_row_bound(r as int, hs as int, hs as int, t as int);
        }
        let ghost prior = dv@;
        let v_r = slice_subrange(v, r * hs, r * hs + hs);
        let dv_r = window_mut(dv, r * hs, hs);
        datt[r] = value_back(dv_r, datt[r], v_r, dout, att[r]);
        proof {
            lemma_row_step(dv0, prior, r as int, hs as int, t as int, dv_r@);
        }
    }
}

/// The gradients of the scores of the first `n` places.
fn softmax_back<T: Scalar>(dpre: &mut [T], att: &[T], datt: &[T], n: usize)
    requires
        n <= old(dpre).len(),
        n <= att.len(),
        n <= datt.len(),
    ensures
        final(dpre)@.len() == old(dpre)@.len(),
        forall|i: int|
            0 <= i < final(dpre)@.len() ==> if i < n {
                evals(
                    lit(old(dpre)@[i]).plus(score_gradient(att@, datt@, i, n as int)),
                    #[trigger] final(dpre)@[i],
                )
            } else {
                final(dpre)@[i] == old(dpre)@[i]
            },
{
    let ghost before = dpre@;
    for t3 in 0..n
        invariant
            n <= dpre.len(),
            n <= att.len(),
            n <= datt.len(),
            dpre.len() == before.len(),
            forall|i: int|
                0 <= i < dpre@.len() ==> if i < t3 {
                    evals(
                        lit(before[i]).plus(score_gradient(att@, datt@, i, n as int)),
                        #[trigger] dpre@[i],
                    )
                } else {
                    dpre@[i] == before[i]
                },
    {
        let own = Traced::quote(att[t3]);
        let mut sum = Traced::zero();
        for t2 in 0..n
            invariant
                n <= att.len(),
                n <= datt.len(),
                t3 < n,
                own.ok(),
                own.e@ == lit(att@[t3 as int]),
                sum.ok(),
                sum.e@ == score_gradient(att@, datt@, t3 as int, t2 as int),
        {
            let hit = if t2 == t3 {
                Traced::one()
            } else {
                Traced::zero()
            };
            let local = Traced::quote(att[t2]).times(&hit.minus(&own));
            sum = sum.plus(&local.times(&Traced::quote(datt[t2])));
        }
        dpre[t3] = Traced::quote(dpre[t3]).plus(&sum).v;
    }
}

/// The gradient of a query, from the first `n` keys.
fn query_back<T: Scalar>(dq: &mut [T], k: &[T], dpre: &[T], n: usize, scale: &Traced<T>)
    requires
        n * old(dq).len() <= k.len(),
        n <= dpre.len(),
        scale.ok(),
        scale.e@ == head_scale::<T>(old(dq).len() as int),
    ensures
        query_carried_back(
            old(dq)@,
            final(dq)@,
            k@,
            dpre@,
            n as int,
            old(dq)@.len() as int,
        ),
{
    let hs = dq.len();
    let ghost before = dq@;
    for i in 0..hs
        invariant
            hs == dq.len(),
            hs == before.len(),
            n * hs <= k.len(),
            n <= dpre.len(),
            scale.ok(),
            scale.e@ == head_scale::<T>(hs as int),
            forall|j: int|
                0 <= j < dq@.len() ==> if j < i {
                    evals(
                        lit(before[j]).plus(query_gradient(k@, dpre@, j, hs as int, n as int)),
                        #[trigger] dq@[j],
                    )
                } else {
                    dq@[j] == before[j]
                },
    {
        let mut sum = Traced::zero();
        for t2 in 0..n
            invariant
                i < hs,
                n * hs <= k.len(),
                n <= dpre.len(),
                scale.ok(),
                scale.e@ == head_scale::<T>(hs as int),
                sum.ok(),
                sum.e@ == query_gradient(k@, dpre@, i as int, hs as int, t2 as int),
        {
            proof {
                lemma_row_bound(t2 as int, hs as int, hs as int, n as int);
            }
            let dp = Traced::quote(dpre[t2]).times(scale);
            sum = sum.plus(&Traced::quote(k[t2 * hs + i]).times(&dp));
        }
        dq[i] = Traced::quote(dq[i]).plus(&sum).v;
    }
}

/// Adds the elements of `x` times `w` to `dst`.
fn add_multiple<T: Scalar>(dst: &mut [T], x: &[T], w: &Traced<T>)
    requires
        old(dst).len() == x.len(),
        w.ok(),
    ensures
        multiple_added(old(dst)@, final(dst)@, x@, w.e@),
{
    let ghost before = dst@;
    for i in 0..x.len()
        invariant
            dst.len() == x.len(),
            before.len() == x.len(),
            w.ok(),
            forall|j: int|
                0 <= j < dst@.len() ==> if j < i {
                    evals(lit(before[j]).plus(lit(x@[j]).times(w.e@)), #[trigger] dst@[j])
                } else {
                    dst@[j] == before[j]
                },
    {
        dst[i] = Traced::quote(dst[i]).plus(&Traced::quote(x[i]).times(w)).v;
    }
}

/// The gradients of the first `n` keys, from the query `q`.
fn keys_back<T: Scalar>(
    dk: &mut [T],
    q: &[T],
    dpre: &[T],
    n: usize,
    t: usize,
    scale: &Traced<T>,
)
    requires
        n <= t,
        old(dk).len() == t * q.len(),
        n <= dpre.len(),
        scale.ok(),
        scale.e@ == head_scale::<T>(q.len() as int),
    ensures
        final(dk)@.len() == old(dk)@.len(),
        forall|r: int|
            0 <= r < n ==> multiple_added(
                row(old(dk)@, r, q@.len() as int),
                #[trigger] row(final(dk)@, r, q@.len() as int),
                q@,
                scaled_gradient(dpre@, r, q@.len() as int),
            ),
        forall|j: int|
            n * q@.len() <= j < final(dk)@.len() ==> #[trigger] final(dk)@[j] == old(dk)@[j],
{
    let hs = q.len();
    let ghost dk0 = dk@;
    for r in 0..n
        invariant
            n <= t,
            hs == q.len(),
            dk.len() == t * hs,
            dk0.len() == t * hs,
            n <= dpre.len(),
            scale.ok(),
            scale.e@ == head_scale::<T>(hs as int),
            forall|p: int|
                0 <= p < r ==> multiple_added(
                    row(dk0, p, hs as int),
                    #[trigger] row(dk@, p, hs as int),
                    q@,
                    scaled_gradient(dpre@, p, hs as int),
                ),
            forall|j: int| r * hs <= j < dk@.len() ==> #[trigger] dk@[j] == dk0[j],
    {
        proof {
            lemma_row_bound(r as int, hs as int, hs as int, t as int);
        }
        let ghost prior = dk@;
        let dp = Traced::quote(dpre[r]).times(scale);
        let dk_r = window_mut(dk, r * hs, hs);
        add_multiple(dk_r, q, &dp);
        proof {
            lemma_row_step(dk0, prior, r as int, hs as int, t as int, dk_r@);
        }
    }
}

/// The gradients of a head: of its queries, keys and values, of its attention and of its scores.
pub struct HeadGradients<T> {
    pub dq: Seq<T>,
    pub dk: Seq<T>,
    pub dv: Seq<T>,
    pub datt: Seq<T>,
    pub dpre: Seq<T>,
}

/// The first `n` queries of a head are carried back, from the gradient `dout` of the output.
pub open spec fn head_carried_back<T: Scalar>(
    d0: HeadGradients<T>,
    d: HeadGradients<T>,
    dout: Seq<T>,
    q: Seq<T>,
    k: Seq<T>,
    v: Seq<T>,
    att: Seq<T>,
    n: int,
    t: int,
    hs: int,
) -> bool {
    &&& d.dq.len() == t * hs
    &&& d.dk.len() == t * hs
    &&& d.dv.len() == t * hs
    &&& d.datt.len() == t * t
    &&& d.dpre.len() == t * t
    &&& forall|ti: int|
        0 <= ti < n ==> scores_carried_back(
            row(d0.datt, ti, t),
            row(d.datt, ti, t),
            row(d0.dpre, ti, t),
            #[trigger] row(d.dpre, ti, t),
            v,
            row(att, ti, t),
            row(dout, ti, hs),
            ti + 1,
            t,
            hs,
        )
    &&& forall|ti: int|
        0 <= ti < n ==> query_carried_back(
            row(d0.dq, ti, hs),
            #[trigger] row(d.dq, ti, hs),
            k,
            row(d.dpre, ti, t),
            ti + 1,
            hs,
        )
    &&& forall|t2: int|
        0 <= t2 < t ==> key_carried_back(
            row(d0.dk, t2, hs),
            #[trigger] row(d.dk, t2, hs),
            q,
            d.dpre,
            t2,
            t,
            hs,
            n,
        )
    &&& forall|t2: int|
        0 <= t2 < t ==> value_carried_back(
            row(d0.dv, t2, hs),
            #[trigger] row(d.dv, t2, hs),
            att,
            dout,
            t2,
            t,
            hs,
            n,
        )
}

/// The gradient of a key looks no further than the queries that have been carried back.
proof fn lemma_key_gradient_agrees<T>(
    base: Expr<T>,
    q: Seq<T>,
    dpre1: Seq<T>,
    dpre2: Seq<T>,
    t2: int,
    i: int,
    t: int,
    hs: int,
    n: int,
)
    requires
        forall|r: int| 0 <= r < n ==> #[trigger] row(dpre1, r, t) == row(dpre2, r, t),
    ensures
        key_gradient(base, q, dpre1, t2, i, t, hs, n) == key_gradient(
            base,
            q,
            dpre2,
            t2,
            i,
            t,
            hs,
            n,
        ),
    decreases n,
{
    if n > 0 {
        lemma_key_gradient_agrees(base, q, dpre1, dpre2, t2, i, t, hs, n - 1);
        assert(row(dpre1, n - 1, t) == row(dpre2, n - 1, t));
    }
}

/// One more query is carried back to the keys.
proof fn lemma_key_step<T: Scalar>(
    dk0: Seq<T>,
    dk1: Seq<T>,
    dk: Seq<T>,
    q: Seq<T>,
    dpre1: Seq<T>,
    dpre: Seq<T>,
    ti: int,
    t: int,
    hs: int,
)
    requires
        0 <= ti < t,
        0 <= hs,
        dk0.len() == t * hs,
        dk1.len() == t * hs,
        dk.len() == t * hs,
        forall|r: int| 0 <= r < ti ==> #[trigger] row(dpre, r, t) == row(dpre1, r, t),
        forall|t2: int|
            0 <= t2 < t ==> key_carried_back(
                row(dk0, t2, hs),
                #[trigger] row(dk1, t2, hs),
                q,
                dpre1,
                t2,
                t,
                hs,
                ti,
            ),
        forall|r: int|
            0 <= r < ti + 1 ==> multiple_added(
                row(dk1, r, hs),
                #[trigger] row(dk, r, hs),
                row(q, ti, hs),
                scaled_gradient(row(dpre, ti, t), r, hs),
            ),
        forall|j: int| (ti + 1) * hs <= j < dk.len() ==> #[trigger] dk[j] == dk1[j],
    ensures
        forall|t2: int|
            0 <= t2 < t ==> key_carried_back(
                row(dk0, t2, hs),
                #[trigger] row(dk, t2, hs),
                q,
                dpre,
                t2,
                t,
                hs,
                ti + 1,
            ),
{
    assert forall|t2: int| 0 <= t2 < t implies key_carried_back(
        row(dk0, t2, hs),
        #[trigger] row(dk, t2, hs),
        q,
        dpre,
        t2,
        t,
        hs,
        ti + 1,
    ) by {
        lemma_row_bound(t2, hs, hs, t);
        let before = row(dk0, t2, hs);
        let prior = row(dk1, t2, hs);
        let after = row(dk, t2, hs);
        assert(key_carried_back(before, prior, q, dpre1, t2, t, hs, ti));
        if t2 > ti {
            lemma_rows_apart(ti, t2, hs);
            lemma_row_bound(ti, hs, hs, t);
            assert(after =~= prior);
        }
        assert forall|i: int| 0 <= i < after.len() implies evals(
            key_gradient(lit(before[i]), q, dpre, t2, i, t, hs, ti + 1),
            #[trigger] after[i],
        ) by {
            lemma_key_gradient_agrees(lit(before[i]), q, dpre, dpre1, t2, i, t, hs, ti);
            let sofar = key_gradient(lit(before[i]), q, dpre1, t2, i, t, hs, ti);
            assert(evals(sofar, prior[i]));
            if t2 <= ti {
                let e = lit(row(q, ti, hs)[i]).times(
                    scaled_gradient(row(dpre, ti, t), t2, hs),
                );
                assert(evals(lit(prior[i]).plus(e), after[i]));
                lemma_chain(sofar, prior[i], e, after[i]);
            }
        }
    }
}

/// One more query is carried back to the values.
proof fn lemma_value_step<T: Scalar>(
    dv0: Seq<T>,
    dv1: Seq<T>,
    dv: Seq<T>,
    att: Seq<T>,
    dout: Seq<T>,
    ti: int,
    t: int,
    hs: int,
)
    requires
        0 <= ti < t,
        0 <= hs,
        dv0.len() == t * hs,
        dv1.len() == t * hs,
        dv.len() == t * hs,
        forall|t2: int|
            0 <= t2 < t ==> value_carried_back(
                row(dv0, t2, hs),
                #[trigger] row(dv1, t2, hs),
                att,
                dout,
                t2,
                t,
                hs,
                ti,
            ),
        forall|r: int|
            0 <= r < ti + 1 ==> weighted_added(
                row(dv1, r, hs),
                #[trigger] row(dv, r, hs),
                lit(row(att, ti, t)[r]),
                row(dout, ti, hs),
            ),
        forall|j: int| (ti + 1) * hs <= j < dv.len() ==> #[trigger] dv[j] == dv1[j],
    ensures
        forall|t2: int|
            0 <= t2 < t ==> value_carried_back(
                row(dv0, t2, hs),
                #[trigger] row(dv, t2, hs),
                att,
                dout,
                t2,
                t,
                hs,
                ti + 1,
            ),
{
    assert forall|t2: int| 0 <= t2 < t implies value_carried_back(
        row(dv0, t2, hs),
        #[trigger] row(dv, t2, hs),
        att,
        dout,
        t2,
        t,
        hs,
        ti + 1,
    ) by {
        lemma_row_bound(t2, hs, hs, t);
        let before = row(dv0, t2, hs);
        let prior = row(dv1, t2, hs);
        let after = row(dv, t2, hs);
        assert(value_carried_back(before, prior, att, dout, t2, t, hs, ti));
        if t2 > ti {
            lemma_rows_apart(ti, t2, hs);
            lemma_row_bound(ti, hs, hs, t);
            assert(after =~= prior);
        }
        assert forall|i: int| 0 <= i < after.len() implies evals(
            value_gradient(lit(before[i]), att, dout, t2, i, t, hs, ti + 1),
            #[trigger] after[i],
        ) by {
            let sofar = value_gradient(lit(before[i]), att, dout, t2, i, t, hs, ti);
            assert(evals(sofar, prior[i]));
            if t2 <= ti {
                let e = lit(row(att, ti, t)[t2]).times(lit(row(dout, ti, hs)[i]));
                assert(evals(lit(prior[i]).plus(e), after[i]));
                lemma_chain(sofar, prior[i], e, after[i]);
            }
        }
    }
}

/// Carries the gradient of the output of a head back.
fn head_backward<T: Scalar>(
    dq: &mut [T],
    dk: &mut [T],
    dv: &mut [T],
    datt: &mut [T],
    dpre: &mut [T],
    dout: &[T],
    q: &[T],
    k: &[T],
    v: &[T],
    att: &[T],
    t: usize,
    hs: usize,
    scale: &Traced<T>,
)
    requires
        old(dq).len() == t * hs,
        old(dk).len() == t * hs,
        old(dv).len() == t * hs,
        old(datt).len() == t * t,
        old(dpre).len() == t * t,
        dout.len() == t * hs,
        q.len() == t * hs,
        k.len() == t * hs,
        v.len() == t * hs,
        att.len() == t * t,
        scale.ok(),
        scale.e@ == head_scale::<T>(hs as int),
    ensures
        head_carried_back(
            (HeadGradients {
                dq: old(dq)@,
                dk: old(dk)@,
                dv: old(dv)@,
                datt: old(datt)@,
                dpre: old(dpre)@,
            }),
            (HeadGradients {
                dq: final(dq)@,
                dk: final(dk)@,
                dv: final(dv)@,
                datt: final(datt)@,
                dpre: final(dpre)@,
            }),
            dout@,
            q@,
            k@,
            v@,
            att@,
            t as int,
            t as int,
            hs as int,
        ),
{
    let ghost d0 = HeadGradients {
        dq: dq@,
        dk: dk@,
        dv: dv@,
        datt: datt@,
        dpre: dpre@,
    };
    proof {
        assert forall|x: T| #[trigger] evals(lit(x), x) by {
            lemma_lit(x);
        }
    }
    for ti in 0..t
        invariant
            dq.len() == t * hs,
            dk.len() == t * hs,
            dv.len() == t * hs,
            datt.len() == t * t,
            dpre.len() == t * t,
            d0.dq.len() == t * hs,
            d0.dk.len() == t * hs,
            d0.dv.len() == t * hs,
            d0.datt.len() == t * t,
            d0.dpre.len() == t * t,
            dout.len() == t * hs,
            q.len() == t * hs,
            k.len() == t * hs,
            v.len() == t * hs,
            att.len() == t * t,
            scale.ok(),
            scale.e@ == head_scale::<T>(hs as int),
            forall|j: int| ti * hs <= j < dq@.len() ==> #[trigger] dq@[j] == d0.dq[j],
            forall|j: int| ti * t <= j < datt@.len() ==> #[trigger] datt@[j] == d0.datt[j],
            forall|j: int| ti * t <= j < dpre@.len() ==> #[trigger] dpre@[j] == d0.dpre[j],
            head_carried_back(
                d0,
                (HeadGradients { dq: dq@, dk: dk@, dv: dv@, datt: datt@, dpre: dpre@ }),
                dout@,
                q@,
                k@,
                v@,
                att@,
                ti as int,
                t as int,
                hs as int,
            ),
    {
        proof {
            lemma_row_bound(ti as int, t as int, t as int, t as int);
            lemma_row_bound(ti as int, hs as int, hs as int, t as int);
        }
        let ghost d1 = HeadGradients {
            dq: dq@,
            dk: dk@,
            dv: dv@,
            datt: datt@,
            dpre: dpre@,
        };
        let n: usize = ti + 1;
        let att_t = slice_subrange(att, ti * t, ti * t + t);
        let dout_t = slice_subrange(dout, ti * hs, ti * hs + hs);
        let q_t = slice_subrange(q, ti * hs, ti * hs + hs);
        let datt_t = window_mut(datt, ti * t, t);
        let dpre_t = window_mut(dpre, ti * t, t);
        let dq_t = window_mut(dq, ti * hs, hs);
        values_back(datt_t, dv, v, att_t, dout_t, n, t);
        softmax_back(dpre_t, att_t, datt_t, n);
        query_back(dq_t, k, dpre_t, n, scale);
        keys_back(dk, q_t, dpre_t, n, t, scale);
        proof {
            lemma_row_step(d0.datt, d1.datt, ti as int, t as int, t as int, datt_t@);
            lemma_row_step(d0.dpre, d1.dpre, ti as int, t as int, t as int, dpre_t@);
            lemma_row_step(d0.dq, d1.dq, ti as int, hs as int, t as int, dq_t@);
            lemma_key_step(
                d0.dk,
                d1.dk,
                dk@,
                q@,
                d1.dpre,
                dpre@,
                ti as int,
                t as int,
                hs as int,
            );
            lemma_value_step(d0.dv, d1.dv, dv@, att@, dout@, ti as int, t as int, hs as int);
        }
    }
}

/// The gradients of the inputs, of the attention and of the scores of all heads.
#[verifier::ext_equal]
pub struct Gradients<T> {
    pub dinp: Seq<T>,
    pub datt: Seq<T>,
    pub dpre: Seq<T>,
}

/// The part of the gradients that belongs to head `g`, counted over all sequences.
pub open spec fn head_gradients<T>(
    d: Gradients<T>,
    g: int,
    t: int,
    c: int,
    nh: int,
) -> HeadGradients<T> {
    HeadGradients {
        dq: head_part(d.dinp, g, 0, t, c, nh),
        dk: head_part(d.dinp, g, 1, t, c, nh),
        dv: head_part(d.dinp, g, 2, t, c, nh),
        datt: row(d.datt, g, t * t),
        dpre: row(d.dpre, g, t * t),
    }
}

/// The columns of sequence `bi` that belong to the queries (`part` 0), keys (`part` 1) or values
/// (`part` 2) of no head.
pub open spec fn no_head_part<T>(inp: Seq<T>, bi: int, part: int, t: int, c: int, nh: int) -> Seq<
    T,
> {
    let hs = c / nh;
    columns(row(inp, bi, t * (3 * c)), part * c + nh * hs, c - nh * hs, 3 * c, t)
}

/// The first `n` heads of sequence `bi` are carried back. All else is as it was.
pub open spec fn sequence_carried_back<T: Scalar>(
    d0: Gradients<T>,
    d: Gradients<T>,
    dout: Seq<T>,
    inp: Seq<T>,
    att: Seq<T>,
    bi: int,
    n: int,
    t: int,
    c: int,
    nh: int,
) -> bool {
    &&& d.dinp.len() == d0.dinp.len()
    &&& d.datt.len() == d0.datt.len()
    &&& d.dpre.len() == d0.dpre.len()
    &&& forall|g: int|
        bi * nh <= g < bi * nh + n ==> head_carried_back(
            head_gradients(d0, g, t, c, nh),
            #[trigger] head_gradients(d, g, t, c, nh),
            head_output(dout, g, t, c, nh),
            head_part(inp, g, 0, t, c, nh),
            head_part(inp, g, 1, t, c, nh),
            head_part(inp, g, 2, t, c, nh),
            row(att, g, t * t),
            t,
            t,
            c / nh,
        )
    &&& forall|part: int|
        0 <= part < 3 ==> #[trigger] no_head_part(d.dinp, bi, part, t, c, nh) == no_head_part(
            d0.dinp,
            bi,
            part,
            t,
            c,
            nh,
        )
    &&& forall|j: int|
        0 <= j < d.dinp.len() && !(bi * (t * (3 * c)) <= j < (bi + 1) * (t * (3 * c)))
            ==> #[trigger] d.dinp[j] == d0.dinp[j]
    &&& forall|j: int|
        0 <= j < d.datt.len() && !((bi * nh) * (t * t) <= j < (bi * nh + n) * (t * t))
            ==> #[trigger] d.datt[j] == d0.datt[j]
    &&& forall|j: int|
        0 <= j < d.dpre.len() && !((bi * nh) * (t * t) <= j < (bi * nh + n) * (t * t))
            ==> #[trigger] d.dpre[j] == d0.dpre[j]
}

/// The gradients that sequence `bi` gives rise to, alone and from nothing but zeros.
pub open spec fn sequence_alone<T: Scalar>(
    d: Gradients<T>,
    dout: Seq<T>,
    inp: Seq<T>,
    att: Seq<T>,
    bi: int,
    t: int,
    c: int,
    nh: int,
) -> bool {
    exists|d0: Gradients<T>|
        {
            &&& resized(Seq::empty(), d0.dinp, d.dinp.len() as int)
            &&& resized(Seq::empty(), d0.datt, d.datt.len() as int)
            &&& resized(Seq::empty(), d0.dpre, d.dpre.len() as int)
            &&& #[trigger] sequence_carried_back(d0, d, dout, inp, att, bi, nh, t, c, nh)
        }
}

/// Three blocks of columns of a head, replaced one after the other.
spec fn with_parts<T>(
    s: Seq<T>,
    h: int,
    dq: Seq<T>,
    dk: Seq<T>,
    dv: Seq<T>,
    t: int,
    c: int,
    hs: int,
) -> Seq<T> {
    let s1 = with_columns(s, h * hs, hs, 3 * c, t, dq);
    let s2 = with_columns(s1, c + h * hs, hs, 3 * c, t, dk);
    with_columns(s2, 2 * c + h * hs, hs, 3 * c, t, dv)
}

/// What lies apart from the queries, the keys and the values of head `h` stays.
proof fn lemma_parts_apart<T>(
    s: Seq<T>,
    h: int,
    dq: Seq<T>,
    dk: Seq<T>,
    dv: Seq<T>,
    t: int,
    c: int,
    hs: int,
    at: int,
    w: int,
)
    requires
        0 <= t,
        0 <= c,
        0 <= hs,
        0 <= h * hs,
        h * hs + hs <= c,
        s.len() == t * (3 * c),
        dq.len() == t * hs,
        dk.len() == t * hs,
        dv.len() == t * hs,
        0 <= at,
        0 <= w,
        at + w <= 3 * c,
        at + w <= h * hs || h * hs + hs <= at,
        at + w <= c + h * hs || c + h * hs + hs <= at,
        at + w <= 2 * c + h * hs || 2 * c + h * hs + hs <= at,
    ensures
        with_parts(s, h, dq, dk, dv, t, c, hs).len() == s.len(),
        columns(with_parts(s, h, dq, dk, dv, t, c, hs), at, w, 3 * c, t) == columns(
            s,
            at,
            w,
            3 * c,
            t,
        ),
{
    let s1 = with_columns(s, h * hs, hs, 3 * c, t, dq);
    let s2 = with_columns(s1, c + h * hs, hs, 3 * c, t, dk);
    lemma_with_columns(s, h * hs, hs, 3 * c, t, dq);
    lemma_with_columns(s1, c + h * hs, hs, 3 * c, t, dk);
    lemma_with_columns(s2, 2 * c + h * hs, hs, 3 * c, t, dv);
    lemma_columns_apart(s, h * hs, hs, 3 * c, t, dq, at, w);
    lemma_columns_apart(s1, c + h * hs, hs, 3 * c, t, dk, at, w);
    lemma_columns_apart(s2, 2 * c + h * hs, hs, 3 * c, t, dv, at, w);
}

/// The queries, the keys and the values of head `h` read back as they were written.
proof fn lemma_parts_read_back<T>(
    s: Seq<T>,
    h: int,
    dq: Seq<T>,
    dk: Seq<T>,
    dv: Seq<T>,
    t: int,
    c: int,
    hs: int,
)
    requires
        0 <= t,
        0 <= c,
        0 <= hs,
        0 <= h * hs,
        h * hs + hs <= c,
        s.len() == t * (3 * c),
        dq.len() == t * hs,
        dk.len() == t * hs,
        dv.len() == t * hs,
    ensures
        columns(with_parts(s, h, dq, dk, dv, t, c, hs), h * hs, hs, 3 * c, t) == dq,
        columns(with_parts(s, h, dq, dk, dv, t, c, hs), c + h * hs, hs, 3 * c, t) == dk,
        columns(with_parts(s, h, dq, dk, dv, t, c, hs), 2 * c + h * hs, hs, 3 * c, t) == dv,
{
    let s1 = with_columns(s, h * hs, hs, 3 * c, t, dq);
    let s2 = with_columns(s1, c + h * hs, hs, 3 * c, t, dk);
    lemma_with_columns(s, h * hs, hs, 3 * c, t, dq);
    lemma_with_columns(s1, c + h * hs, hs, 3 * c, t, dk);
    lemma_columns_read_back(s, h * hs, hs, 3 * c, t, dq);
    lemma_columns_read_back(s1, c + h * hs, hs, 3 * c, t, dk);
    lemma_columns_read_back(s2, 2 * c + h * hs, hs, 3 * c, t, dv);
    lemma_columns_apart(s1, c + h * hs, hs, 3 * c, t, dk, h * hs, hs);
    lemma_columns_apart(s2, 2 * c + h * hs, hs, 3 * c, t, dv, h * hs, hs);
    lemma_columns_apart(s2, 2 * c + h * hs, hs, 3 * c, t, dv, c + h * hs, hs);
}

/// Replacing the gradients of head `g` leaves those of the other heads of its sequence, and what
/// belongs to none, as they are.
proof fn lemma_put_gradients<T>(
    d1: Gradients<T>,
    bi: int,
    h: int,
    new: HeadGradients<T>,
    b: int,
    t: int,
    c: int,
    nh: int,
)
    requires
        0 <= bi < b,
        0 <= h < nh,
        0 <= t,
        0 <= c,
        b * (t * (3 * c)) <= d1.dinp.len(),
        (b * nh) * (t * t) <= d1.datt.len(),
        (b * nh) * (t * t) <= d1.dpre.len(),
        new.dq.len() == t * (c / nh),
        new.dk.len() == t * (c / nh),
        new.dv.len() == t * (c / nh),
        new.datt.len() == t * t,
        new.dpre.len() == t * t,
    ensures
        ({
            let g = bi * nh + h;
            let block = with_parts(
                row(d1.dinp, bi, t * (3 * c)),
                h,
                new.dq,
                new.dk,
                new.dv,
                t,
                c,
                c / nh,
            );
            let d = Gradients {
                dinp: splice(d1.dinp, bi * (t * (3 * c)), block),
                datt: splice(d1.datt, g * (t * t), new.datt),
                dpre: splice(d1.dpre, g * (t * t), new.dpre),
            };
            &&& block.len() == t * (3 * c)
            &&& head_gradients(d, g, t, c, nh) == new
            &&& forall|g2: int|
                bi * nh <= g2 < bi * nh + nh && g2 != g ==> #[trigger] head_gradients(
                    d,
                    g2,
                    t,
                    c,
                    nh,
                ) == head_gradients(d1, g2, t, c, nh)
            &&& forall|part: int|
                0 <= part < 3 ==> #[trigger] no_head_part(d.dinp, bi, part, t, c, nh)
                    == no_head_part(d1.dinp, bi, part, t, c, nh)
        }),
{
    let hs = c / nh;
    let g = bi * nh + h;
    let old_block = row(d1.dinp, bi, t * (3 * c));
    let block = with_parts(old_block, h, new.dq, new.dk, new.dv, t, c, hs);
    let d = Gradients {
        dinp: splice(d1.dinp, bi * (t * (3 * c)), block),
        datt: splice(d1.datt, g * (t * t), new.datt),
        dpre: splice(d1.dpre, g * (t * t), new.dpre),
    };
    assert(0 <= t * (3 * c) && 0 <= t * t) by (nonlinear_arith)
        requires
            0 <= t,
            0 <= c,
    ;
    lemma_head_bounds(h, nh, c);
    lemma_row_bound(bi, h, nh, b);
    lemma_row_bound(bi, t * (3 * c), t * (3 * c), b);
    lemma_head_of_pair(bi, h, nh);
    lemma_row_bound(g, t * t, t * t, b * nh);
    assert(0 * c == 0);
    lemma_parts_apart(old_block, h, new.dq, new.dk, new.dv, t, c, hs, 0, 0);
    lemma_splice_row(d1.dinp, bi, t * (3 * c), block);
    lemma_splice_row(d1.datt, g, t * t, new.datt);
    lemma_splice_row(d1.dpre, g, t * t, new.dpre);
    lemma_parts_read_back(old_block, h, new.dq, new.dk, new.dv, t, c, hs);
    assert forall|g2: int| bi * nh <= g2 < bi * nh + nh && g2 != g implies #[trigger] head_gradients(
        d,
        g2,
        t,
        c,
        nh,
    ) == head_gradients(d1, g2, t, c, nh) by {
        let h2 = g2 - bi * nh;
        lemma_head_of_pair(bi, h2, nh);
        lemma_head_bounds(h2, nh, c);
        lemma_row_bound(g2, t * t, t * t, b * nh);
        if h2 < h {
            lemma_rows_apart(h2, h, hs);
        } else {
            lemma_rows_apart(h, h2, hs);
        }
        lemma_parts_apart(old_block, h, new.dq, new.dk, new.dv, t, c, hs, h2 * hs, hs);
        lemma_parts_apart(old_block, h, new.dq, new.dk, new.dv, t, c, hs, c + h2 * hs, hs);
        lemma_parts_apart(old_block, h, new.dq, new.dk, new.dv, t, c, hs, 2 * c + h2 * hs, hs);
        assert(row(d.datt, g2, t * t) == row(d1.datt, g2, t * t));
        assert(row(d.dpre, g2, t * t) == row(d1.dpre, g2, t * t));
    }
    assert forall|part: int| 0 <= part < 3 implies #[trigger] no_head_part(
        d.dinp,
        bi,
        part,
        t,
        c,
        nh,
    ) == no_head_part(d1.dinp, bi, part, t, c, nh) by {
        let at = part * c + nh * hs;
        assert(part == 0 || part == 1 || part == 2);
        assert(1 * c == c);
        lemma_parts_apart(
            old_block,
            h,
            new.dq,
            new.dk,
            new.dv,
            t,
            c,
            hs,
            at,
            c - nh * hs,
        );
    }
}

/// Head `h` of sequence `bi`, counted over all sequences.
pub proof fn lemma_head_of_pair(bi: int, h: int, nh: int)
    requires
        0 <= bi,
        0 <= h < nh,
    ensures
        (bi * nh + h) / nh == bi,
        (bi * nh + h) % nh == h,
{
    lemma_fundamental_div_mod_converse(bi * nh + h, nh, bi, h);
}

/// The gradients that one sequence gives rise to, in buffers for all sequences.
pub struct BatchGradients<T> {
    /// Of the input.
    pub dinp: Vec<T>,
    /// Of the attention.
    pub datt: Vec<T>,
    /// Of the scaled scores.
    pub dpre: Vec<T>,
}

impl<T> View for BatchGradients<T> {
    type V = Gradients<T>;

    open spec fn view(&self) -> Gradients<T> {
        Gradients { dinp: self.dinp@, datt: self.datt@, dpre: self.dpre@ }
    }
}

/// The buffers are large enough for `b` sequences of `t` rows with `nh` heads.
pub open spec fn fits_attention(
    dinp: int,
    datt: int,
    dpre: int,
    dout: int,
    inp: int,
    att: int,
    b: int,
    t: int,
    c: int,
    nh: int,
) -> bool {
    &&& 0 < nh
    &&& 3 * c <= usize::MAX
    &&& b * nh <= usize::MAX
    &&& b * (t * (3 * c)) <= dinp
    &&& (b * nh) * (t * t) <= datt
    &&& (b * nh) * (t * t) <= dpre
    &&& b * (t * c) <= dout
    &&& b * (t * (3 * c)) <= inp
    &&& (b * nh) * (t * t) <= att
}

/// Carries the gradient of the output of sequence `bi` back, into zeroed buffers of the given
/// lengths.
pub fn batch_backward<T: Scalar>(
    ndinp: usize,
    ndatt: usize,
    ndpre: usize,
    dout: &[T],
    inp: &[T],
    att: &[T],
    bi: usize,
    b: usize,
    t: usize,
    c: usize,
    nh: usize,
) -> (d: BatchGradients<T>)
    requires
        bi < b,
        fits_attention(
            ndinp as int,
            ndatt as int,
            ndpre as int,
            dout.len() as int,
            inp.len() as int,
            att.len() as int,
            b as int,
            t as int,
            c as int,
            nh as int,
        ),
    ensures
        d.dinp@.len() == ndinp,
        d.datt@.len() == ndatt,
        d.dpre@.len() == ndpre,
        sequence_alone(d@, dout@, inp@, att@, bi as int, t as int, c as int, nh as int),
{
    let c3: usize = c * 3;
    let hs: usize = c / nh;
    let scale = Traced::one().over(&Traced::count(hs).sqrt());
    let mut dinp: Vec<T> = zeros(ndinp);
    let mut datt: Vec<T> = zeros(ndatt);
    let mut dpre: Vec<T> = zeros(ndpre);
    let ghost d0 = Gradients { dinp: dinp@, datt: datt@, dpre: dpre@ };
    proof {
        assert(0 <= t * c && 0 <= t * t && 0 <= t * c3) by (nonlinear_arith);
        lemma_row_bound(bi as int, t * c, t * c, b as int);
        lemma_row_bound(bi as int, t * c3, t * c3, b as int);
        lemma_row_bound(bi as int, nh as int, nh as int, b as int);
    }
    for h in 0..nh
        invariant
            bi < b,
            0 < nh,
            c3 == 3 * c,
            hs == c / nh,
            bi * nh + nh <= b * nh <= usize::MAX,
            bi * (t * c) + t * c <= b * (t * c) <= dout.len(),
            bi * (t * c3) + t * c3 <= b * (t * c3),
            b * (t * c3) <= inp.len(),
            b * (t * c3) <= dinp.len(),
            (b * nh) * (t * t) <= datt.len(),
            (b * nh) * (t * t) <= dpre.len(),
            (b * nh) * (t * t) <= att.len(),
            scale.ok(),
            scale.e@ == head_scale::<T>(hs as int),
            sequence_carried_back(
                d0,
                (Gradients { dinp: dinp@, datt: datt@, dpre: dpre@ }),
                dout@,
                inp@,
                att@,
                bi as int,
                h as int,
                t as int,
                c as int,
                nh as int,
            ),
            forall|g: int|
                bi * nh + h <= g < bi * nh + nh ==> #[trigger] head_gradients(
                    (Gradients { dinp: dinp@, datt: datt@, dpre: dpre@ }),
                    g,
                    t as int,
                    c as int,
                    nh as int,
                ) == head_gradients(d0, g, t as int, c as int, nh as int),
    {
        let ghost d1 = Gradients { dinp: dinp@, datt: datt@, dpre: dpre@ };
        let g: usize = bi * nh + h;
        proof {
            lemma_head_of_pair(bi as int, h as int, nh as int);
            lemma_head_bounds(h as int, nh as int, c as int);
            assert(0 <= t * c && 0 <= t * t && 0 <= t * c3) by (nonlinear_arith);
            lemma_row_bound(g as int, t * t, t * t, b * nh);
        }
        let inp_b = slice_subrange(inp, bi * (t * c3), bi * (t * c3) + t * c3);
        let q = take_columns(inp_b, h * hs, hs, c3, t);
        let k = take_columns(inp_b, c + h * hs, hs, c3, t);
        let v = take_columns(inp_b, 2 * c + h * hs, hs, c3, t);
        let dout_b = slice_subrange(dout, bi * (t * c), bi * (t * c) + t * c);
        let dout_h = take_columns(dout_b, h * hs, hs, c, t);
        let att_h = slice_subrange(att, g * (t * t), g * (t * t) + t * t);
        let dinp_b = window_mut(dinp.as_mut_slice(), bi * (t * c3), t * c3);
        let mut dq = take_columns(dinp_b, h * hs, hs, c3, t);
        let mut dk = take_columns(dinp_b, c + h * hs, hs, c3, t);
        let mut dv = take_columns(dinp_b, 2 * c + h * hs, hs, c3, t);
        proof {
            lemma_columns(inp_b@, h * hs, hs as int, c3 as int, t as int);
            lemma_columns(inp_b@, c + h * hs, hs as int, c3 as int, t as int);
            lemma_columns(inp_b@, 2 * c + h * hs, hs as int, c3 as int, t as int);
            lemma_columns(dinp_b@, h * hs, hs as int, c3 as int, t as int);
            lemma_columns(dinp_b@, c + h * hs, hs as int, c3 as int, t as int);
            lemma_columns(dinp_b@, 2 * c + h * hs, hs as int, c3 as int, t as int);
            lemma_columns(dout_b@, h * hs, hs as int, c as int, t as int);
        }
        let datt_h = window_mut(datt.as_mut_slice(), g * (t * t), t * t);
        let dpre_h = window_mut(dpre.as_mut_slice(), g * (t * t), t * t);
        let ghost old_block = dinp_b@;
        let ghost before = HeadGradients {
            dq: dq@,
            dk: dk@,
            dv: dv@,
            datt: datt_h@,
            dpre: dpre_h@,
        };
        head_backward(
            dq.as_mut_slice(),
            dk.as_mut_slice(),
            dv.as_mut_slice(),
            datt_h,
            dpre_h,
            dout_h.as_slice(),
            q.as_slice(),
            k.as_slice(),
            v.as_slice(),
            att_h,
            t,
            hs,
            &scale,
        );
        let ghost new = HeadGradients {
            dq: dq@,
            dk: dk@,
            dv: dv@,
            datt: datt_h@,
            dpre: dpre_h@,
        };
        proof {
            lemma_with_columns(old_block, h * hs, hs as int, c3 as int, t as int, dq@);
        }
        put_columns(dinp_b, h * hs, hs, c3, t, dq.as_slice());
        proof {
            lemma_with_columns(dinp_b@, c + h * hs, hs as int, c3 as int, t as int, dk@);
        }
        put_columns(dinp_b, c + h * hs, hs, c3, t, dk.as_slice());
        proof {
            lemma_with_columns(dinp_b@, 2 * c + h * hs, hs as int, c3 as int, t as int, dv@);
        }
        put_columns(dinp_b, 2 * c + h * hs, hs, c3, t, dv.as_slice());
        proof {
            lemma_put_gradients(
                d1,
                bi as int,
                h as int,
                new,
                b as int,
                t as int,
                c as int,
                nh as int,
            );
            let d = Gradients { dinp: dinp@, datt: datt@, dpre: dpre@ };
            assert(before == head_gradients(d1, g as int, t as int, c as int, nh as int));
            assert(d1.dinp.len() == d0.dinp.len());
            assert forall|g2: int| bi * nh <= g2 < bi * nh + (h + 1) implies head_carried_back(
                head_gradients(d0, g2, t as int, c as int, nh as int),
                #[trigger] head_gradients(d, g2, t as int, c as int, nh as int),
                head_output(dout@, g2, t as int, c as int, nh as int),
                head_part(inp@, g2, 0, t as int, c as int, nh as int),
                head_part(inp@, g2, 1, t as int, c as int, nh as int),
                head_part(inp@, g2, 2, t as int, c as int, nh as int),
                row(att@, g2, t * t),
                t as int,
                t as int,
                hs as int,
            ) by {
                if g2 != g {
                    assert(head_gradients(d1, g2, t as int, c as int, nh as int)
                        == head_gradients(d, g2, t as int, c as int, nh as int));
                }
            }
            lemma_row_bound(bi as int, t * c3, t * c3, b as int);
            assert((g + 1) * (t * t) == g * (t * t) + t * t) by (nonlinear_arith);
            assert((bi * nh) * (t * t) <= g * (t * t)) by (nonlinear_arith)
                requires
                    bi * nh <= g,
                    0 <= t * t,
            ;
        }
    }
    let d = BatchGradients { dinp, datt, dpre };
    proof {
        assert(sequence_carried_back(
            d0,
            d@,
            dout@,
            inp@,
            att@,
            bi as int,
            nh as int,
            t as int,
            c as int,
            nh as int,
        ));
    }
    d
}

/// Element `p` of the first `n` buffers of `parts`, added up from zero in their order.
pub open spec fn merged<T>(parts: Seq<Seq<T>>, p: int, n: int) -> Expr<T>
    decreases n,
{
    if n <= 0 {
        nought()
    } else {
        merged(parts, p, n - 1).plus(lit(parts[n - 1][p]))
    }
}

/// `all` is the first `n` buffers of `parts`, added up element by element.
pub open spec fn merges<T: Scalar>(all: Seq<T>, parts: Seq<Seq<T>>, n: int) -> bool {
    forall|p: int| 0 <= p < all.len() ==> evals(merged(parts, p, n), #[trigger] all[p])
}

/// The gradients `d` come of those that each of the `b` sequences gives rise to alone, added up
/// in the order of the sequences.
pub open spec fn attention_carried_back_by<T: Scalar>(
    d: Gradients<T>,
    dout: Seq<T>,
    inp: Seq<T>,
    att: Seq<T>,
    b: int,
    t: int,
    c: int,
    nh: int,
    parts: Seq<Gradients<T>>,
) -> bool {
    &&& parts.len() == b
    &&& forall|bi: int|
        0 <= bi < b ==> {
            &&& (#[trigger] parts[bi]).dinp.len() == d.dinp.len()
            &&& parts[bi].datt.len() == d.datt.len()
            &&& parts[bi].dpre.len() == d.dpre.len()
            &&& sequence_alone(parts[bi], dout, inp, att, bi, t, c, nh)
        }
    &&& merges(d.dinp, Seq::new(parts.len(), |i: int| parts[i].dinp), b)
    &&& merges(d.datt, Seq::new(parts.len(), |i: int| parts[i].datt), b)
    &&& merges(d.dpre, Seq::new(parts.len(), |i: int| parts[i].dpre), b)
}

/// The gradients `d` come of those that each of the `b` sequences gives rise to alone.
pub open spec fn attention_carried_back<T: Scalar>(
    d: Gradients<T>,
    dout: Seq<T>,
    inp: Seq<T>,
    att: Seq<T>,
    b: int,
    t: int,
    c: int,
    nh: int,
) -> bool {
    exists|parts: Seq<Gradients<T>>|
        attention_carried_back_by(d, dout, inp, att, b, t, c, nh, parts)
}

/// Adds the next buffer to those added up so far.
fn merge_next<T: Scalar>(
    all: &mut [T],
    next: &[T],
    Ghost(parts): Ghost<Seq<Seq<T>>>,
    Ghost(n): Ghost<int>,
)
    requires
        0 <= n,
        old(all).len() == next.len(),
        merges(old(all)@, parts, n),
        parts[n] == next@,
    ensures
        final(all)@.len() == old(all)@.len(),
        merges(final(all)@, parts, n + 1),
{
    let ghost before = all@;
    for p in 0..next.len()
        invariant
            0 <= n,
            all.len() == next.len(),
            before.len() == next.len(),
            merges(before, parts, n),
            parts[n] == next@,
            forall|j: int|
                0 <= j < all@.len() ==> if j < p {
                    evals(merged(parts, j, n + 1), #[trigger] all@[j])
                } else {
                    all@[j] == before[j]
                },
    {
        proof {
            assert(evals(merged(parts, p as int, n), before[p as int]));
        }
        let sofar = Traced { v: all[p], e: Ghost(merged(parts, p as int, n)) };
        all[p] = sofar.plus(&Traced::quote(next[p])).v;
    }
}

/// What the work on sequence `bi` of [`attention_backward`] needs.
pub open spec fn can_carry_back<T>(
    ndinp: usize,
    ndatt: usize,
    ndpre: usize,
    dout: Seq<T>,
    inp: Seq<T>,
    att: Seq<T>,
    bi: usize,
    b: usize,
    t: usize,
    c: usize,
    nh: usize,
) -> bool {
    &&& bi < b
    &&& fits_attention(
        ndinp as int,
        ndatt as int,
        ndpre as int,
        dout.len() as int,
        inp.len() as int,
        att.len() as int,
        b as int,
        t as int,
        c as int,
        nh as int,
    )
}

/// What the work on sequence `bi` of [`attention_backward`] gives.
pub open spec fn has_carried_back<T: Scalar>(
    d: Gradients<T>,
    ndinp: usize,
    ndatt: usize,
    ndpre: usize,
    dout: Seq<T>,
    inp: Seq<T>,
    att: Seq<T>,
    bi: usize,
    t: usize,
    c: usize,
    nh: usize,
) -> bool {
    &&& d.dinp.len() == ndinp
    &&& d.datt.len() == ndatt
    &&& d.dpre.len() == ndpre
    &&& sequence_alone(d, dout, inp, att, bi as int, t as int, c as int, nh as int)
}

/// Carries the gradient `dout` of the output of attention back to its input, its scaled scores
/// and its attention. The sequences are worked on in parallel, and their gradients are added up.
/// What the buffers held before is gone.
pub fn attention_backward<T: Scalar>(
    dinp: &mut [T],
    dpreatt: &mut [T],
    datt: &mut [T],
    dout: &[T],
    inp: &[T],
    att: &[T],
    b: usize,
    t: usize,
    c: usize,
    nh: usize,
)
    requires
        fits_attention(
            old(dinp).len() as int,
            old(datt).len() as int,
            old(dpreatt).len() as int,
            dout.len() as int,
            inp.len() as int,
            att.len() as int,
            b as int,
            t as int,
            c as int,
            nh as int,
        ),
    ensures
        final(dinp)@.len() == old(dinp)@.len(),
        final(datt)@.len() == old(datt)@.len(),
        final(dpreatt)@.len() == old(dpreatt)@.len(),
        attention_carried_back(
            (Gradients { dinp: final(dinp)@, datt: final(datt)@, dpre: final(dpreatt)@ }),
            dout@,
            inp@,
            att@,
            b as int,
            t as int,
            c as int,
            nh as int,
        ),
{
    let ndinp = dinp.len();
    let ndatt = datt.len();
    let ndpre = dpreatt.len();
    let carry = |bi: usize| -> (d: BatchGradients<T>)
        requires
            can_carry_back(ndinp, ndatt, ndpre, dout@, inp@, att@, bi, b, t, c, nh),
        ensures
            has_carried_back(d@, ndinp, ndatt, ndpre, dout@, inp@, att@, bi, t, c, nh),
        { batch_backward(ndinp, ndatt, ndpre, dout, inp, att, bi, b, t, c, nh) };
    let locals: Vec<BatchGradients<T>> = map_indices(b, carry);
    let ghost parts = Seq::new(locals@.len(), |i: int| locals@[i]@);
    let ghost dinps = Seq::new(parts.len(), |i: int| parts[i].dinp);
    let ghost datts = Seq::new(parts.len(), |i: int| parts[i].datt);
    let ghost dpres = Seq::new(parts.len(), |i: int| parts[i].dpre);
    assert forall|bi: int| 0 <= bi < b implies {
        &&& (#[trigger] parts[bi]).dinp.len() == ndinp
        &&& parts[bi].datt.len() == ndatt
        &&& parts[bi].dpre.len() == ndpre
        &&& sequence_alone(parts[bi], dout@, inp@, att@, bi, t as int, c as int, nh as int)
    } by {
        assert(carry.ensures((bi as usize,), locals@[(bi as usize) as int]));
    }
    let mut all_dinp: Vec<T> = zeros(ndinp);
    let mut all_datt: Vec<T> = zeros(ndatt);
    let mut all_dpre: Vec<T> = zeros(ndpre);
    for bi in 0..b
        invariant
            locals@.len() == b,
            parts.len() == b,
            forall|i: int| 0 <= i < b ==> #[trigger] parts[i] == locals@[i]@,
            dinps == Seq::new(parts.len(), |i: int| parts[i].dinp),
            datts == Seq::new(parts.len(), |i: int| parts[i].datt),
            dpres == Seq::new(parts.len(), |i: int| parts[i].dpre),
            forall|i: int|
                0 <= i < b ==> {
                    &&& (#[trigger] parts[i]).dinp.len() == ndinp
                    &&& parts[i].datt.len() == ndatt
                    &&& parts[i].dpre.len() == ndpre
                },
            all_dinp@.len() == ndinp,
            all_datt@.len() == ndatt,
            all_dpre@.len() == ndpre,
            merges(all_dinp@, dinps, bi as int),
            merges(all_datt@, datts, bi as int),
            merges(all_dpre@, dpres, bi as int),
    {
        proof {
            assert(parts[bi as int] == locals@[bi as int]@);
        }
        let part = &locals[bi];
        merge_next(
            all_dinp.as_mut_slice(),
            part.dinp.as_slice(),
            Ghost(dinps),
            Ghost(bi as int),
        );
        merge_next(
            all_datt.as_mut_slice(),
            part.datt.as_slice(),
            Ghost(datts),
            Ghost(bi as int),
        );
        merge_next(
            all_dpre.as_mut_slice(),
            part.dpre.as_slice(),
            Ghost(dpres),
            Ghost(bi as int),
        );
    }
    lay_over(dinp, all_dinp.as_slice());
    lay_over(datt, all_datt.as_slice());
    lay_over(dpreatt, all_dpre.as_slice());
    proof {
        assert(dinp@ =~= all_dinp@);
        assert(datt@ =~= all_datt@);
        assert(dpreatt@ =~= all_dpre@);
        let d = Gradients { dinp: dinp@, datt: datt@, dpre: dpreatt@ };
        assert(attention_carried_back_by(
            d,
            dout@,
            inp@,
            att@,
            b as int,
            t as int,
            c as int,
            nh as int,
            parts,
        ));
    }
}

} // verus!
