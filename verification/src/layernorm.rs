//! Layer normalisation.

use vstd::prelude::*;
use vstd::slice::slice_subrange;

use crate::buffer::{lemma_row_bound, lemma_row_step, row, window_mut};
use crate::scalar::{evals, lemma_lit, lit, nought, sum, total, unit, Expr, Scalar, Traced};

verus! {

/// The mean of the elements of `x`.
pub open spec fn mean_of<T>(x: Seq<T>) -> Expr<T> {
    total(x, x.len() as int).over(Expr::Count(x.len() as usize))
}

/// The sum of the squared distances of the first `n` elements of `x` from `m`.
pub open spec fn squared_distances<T>(x: Seq<T>, m: T, n: int) -> Expr<T>
    decreases n,
{
    if n <= 0 {
        nought()
    } else {
        let d = lit(x[n - 1]).minus(lit(m));
        squared_distances(x, m, n - 1).plus(d.times(d))
    }
}

/// The reciprocal of the standard deviation of `x` around `m`, kept finite by a small term.
pub open spec fn rstd_of<T>(x: Seq<T>, m: T) -> Expr<T> {
    let variance = squared_distances(x, m, x.len() as int).over(Expr::Count(x.len() as usize));
    unit().over(variance.plus(Expr::Decimal(1, 5)).sqrt())
}

/// The value `x` with mean `m` taken off and scaled by `s`.
pub open spec fn normal<T>(x: T, m: T, s: T) -> Expr<T> {
    lit(x).minus(lit(m)).times(lit(s))
}

/// `out` is the row `x` normalised with mean `m` and scale `s`, weighted and shifted.
pub open spec fn normalised<T: Scalar>(
    out: Seq<T>,
    x: Seq<T>,
    m: T,
    s: T,
    weight: Seq<T>,
    bias: Seq<T>,
) -> bool {
    &&& evals(mean_of(x), m)
    &&& evals(rstd_of(x, m), s)
    &&& out.len() == x.len()
    &&& forall|i: int|
        0 <= i < out.len() ==> evals(
            normal(x[i], m, s).times(lit(weight[i])).plus(lit(bias[i])),
            #[trigger] out[i],
        )
}

/// The first `n` rows of `inp` are normalised into those of `out`, with their means and scales
/// kept in `mean` and `rstd`. What lies behind is as it was.
pub open spec fn layer_normalised<T: Scalar>(
    out0: Seq<T>,
    out: Seq<T>,
    mean0: Seq<T>,
    mean: Seq<T>,
    rstd0: Seq<T>,
    rstd: Seq<T>,
    inp: Seq<T>,
    weight: Seq<T>,
    bias: Seq<T>,
    n: int,
    c: int,
) -> bool {
    &&& out.len() == out0.len()
    &&& mean.len() == mean0.len()
    &&& rstd.len() == rstd0.len()
    &&& forall|r: int|
        0 <= r < n ==> normalised(
            #[trigger] row(out, r, c),
            row(inp, r, c),
            mean[r],
            rstd[r],
            weight,
            bias,
        )
    &&& forall|j: int| n * c <= j < out.len() ==> #[trigger] out[j] == out0[j]
    &&& forall|j: int| n <= j < mean.len() ==> #[trigger] mean[j] == mean0[j]
    &&& forall|j: int| n <= j < rstd.len() ==> #[trigger] rstd[j] == rstd0[j]
}

/// The gradient with respect to element `i` of a normalised row.
pub open spec fn dnorm<T>(weight: Seq<T>, dout: Seq<T>, i: int) -> Expr<T> {
    lit(weight[i]).times(lit(dout[i]))
}

/// The sum of the first `n` gradients with respect to a normalised row.
pub open spec fn dnorm_total<T>(weight: Seq<T>, dout: Seq<T>, n: int) -> Expr<T>
    decreases n,
{
    if n <= 0 {
        nought()
    } else {
        dnorm_total(weight, dout, n - 1).plus(dnorm(weight, dout, n - 1))
    }
}

/// The sum of the first `n` gradients with respect to a normalised row, each times the
/// normalised value.
pub open spec fn dnorm_norm_total<T>(
    weight: Seq<T>,
    dout: Seq<T>,
    x: Seq<T>,
    m: T,
    s: T,
    n: int,
) -> Expr<T>
    decreases n,
{
    if n <= 0 {
        nought()
    } else {
        dnorm_norm_total(weight, dout, x, m, s, n - 1).plus(
            dnorm(weight, dout, n - 1).times(normal(x[n - 1], m, s)),
        )
    }
}

/// What the gradient `dout` of a normalised row adds to the gradient of element `i` of the row.
pub open spec fn row_gradient<T>(
    weight: Seq<T>,
    dout: Seq<T>,
    x: Seq<T>,
    m: T,
    s: T,
    i: int,
) -> Expr<T> {
    let c = x.len() as int;
    let mean = dnorm_total(weight, dout, c).over(Expr::Count(x.len() as usize));
    let norm_mean = dnorm_norm_total(weight, dout, x, m, s, c).over(
        Expr::Count(x.len() as usize),
    );
    dnorm(weight, dout, i).minus(mean).minus(normal(x[i], m, s).times(norm_mean)).times(lit(s))
}

/// `after` is `before` with the gradient of the row `x` added.
pub open spec fn row_carried_back<T: Scalar>(
    before: Seq<T>,
    after: Seq<T>,
    weight: Seq<T>,
    dout: Seq<T>,
    x: Seq<T>,
    m: T,
    s: T,
) -> bool {
    &&& after.len() == before.len()
    &&& forall|i: int|
        0 <= i < after.len() ==> evals(
            lit(before[i]).plus(row_gradient(weight, dout, x, m, s, i)),
            #[trigger] after[i],
        )
}

/// The gradient of element `i` of the shift, after `n` rows.
pub open spec fn shift_gradient<T>(base: Expr<T>, dout: Seq<T>, i: int, c: int, n: int) -> Expr<T>
    decreases n,
{
    if n <= 0 {
        base
    } else {
        shift_gradient(base, dout, i, c, n - 1).plus(lit(row(dout, n - 1, c)[i]))
    }
}

/// The gradient of element `i` of the weight, after `n` rows.
pub open spec fn weight_gradient<T>(
    base: Expr<T>,
    dout: Seq<T>,
    inp: Seq<T>,
    mean: Seq<T>,
    rstd: Seq<T>,
    i: int,
    c: int,
    n: int,
) -> Expr<T>
    decreases n,
{
    if n <= 0 {
        base
    } else {
        weight_gradient(base, dout, inp, mean, rstd, i, c, n - 1).plus(
            normal(row(inp, n - 1, c)[i], mean[n - 1], rstd[n - 1]).times(
                lit(row(dout, n - 1, c)[i]),
            ),
        )
    }
}

/// The first `n` rows of the gradient `dout` are carried back through the normalisation of
/// `inp`: into the gradient of the input, row by row, and into those of weight and shift.
pub open spec fn layer_carried_back<T: Scalar>(
    dinp0: Seq<T>,
    dinp: Seq<T>,
    dweight0: Seq<T>,
    dweight: Seq<T>,
    dbias0: Seq<T>,
    dbias: Seq<T>,
    dout: Seq<T>,
    inp: Seq<T>,
    weight: Seq<T>,
    mean: Seq<T>,
    rstd: Seq<T>,
    n: int,
    c: int,
) -> bool {
    &&& dinp.len() == dinp0.len()
    &&& dweight.len() == dweight0.len()
    &&& dbias.len() == dbias0.len()
    &&& forall|r: int|
        0 <= r < n ==> row_carried_back(
            row(dinp0, r, c),
            #[trigger] row(dinp, r, c),
            weight,
            row(dout, r, c),
            row(inp, r, c),
            mean[r],
            rstd[r],
        )
    &&& forall|j: int| n * c <= j < dinp.len() ==> #[trigger] dinp[j] == dinp0[j]
    &&& forall|i: int|
        0 <= i < dweight.len() ==> if i < c {
            evals(
                weight_gradient(lit(dweight0[i]), dout, inp, mean, rstd, i, c, n),
                #[trigger] dweight[i],
            )
        } else {
            dweight[i] == dweight0[i]
        }
    &&& forall|i: int|
        0 <= i < dbias.len() ==> if i < c {
            evals(shift_gradient(lit(dbias0[i]), dout, i, c, n), #[trigger] dbias[i])
        } else {
            dbias[i] == dbias0[i]
        }
}

fn normalise_row<T: Scalar>(out: &mut [T], x: &[T], weight: &[T], bias: &[T]) -> (r: (T, T))
    requires
        old(out).len() == x.len(),
        x.len() <= weight.len(),
        x.len() <= bias.len(),
    ensures
        normalised(final(out)@, x@, r.0, r.1, weight@, bias@),
{
    let c = x.len();
    let count = Traced::<T>::count(c);
    let m = sum(x).over(&count);
    let mean = Traced::quote(m.v);
    let mut squares = Traced::zero();
    for i in 0..c
        invariant
            c == x.len(),
            mean.ok(),
            mean.e@ == lit(m.v),
            squares.ok(),
            squares.e@ == squared_distances(x@, m.v, i as int),
    {
        let d = Traced::quote(x[i]).minus(&mean);
        squares = squares.plus(&d.times(&d));
    }
    let variance = squares.over(&count);
    let s = Traced::one().over(&variance.plus(&Traced::decimal(1, 5)).sqrt());
    let rstd = Traced::quote(s.v);
    for i in 0..c
        invariant
            c == x.len(),
            c <= weight.len(),
            c <= bias.len(),
            out.len() == c,
            mean.ok(),
            mean.e@ == lit(m.v),
            rstd.ok(),
            rstd.e@ == lit(s.v),
            forall|j: int|
                0 <= j < i ==> evals(
                    normal(x@[j], m.v, s.v).times(lit(weight@[j])).plus(lit(bias@[j])),
                    #[trigger] out@[j],
                ),
    {
        let n = Traced::quote(x[i]).minus(&mean).times(&rstd);
        let o = n.times(&Traced::quote(weight[i])).plus(&Traced::quote(bias[i]));
        out[i] = o.v;
    }
    (m.v, s.v)
}

/// Normalises `b` times `t` rows of `c` elements.
pub fn layernorm_forward<T: Scalar>(
    out: &mut [T],
    mean: &mut [T],
    rstd: &mut [T],
    inp: &[T],
    weight: &[T],
    bias: &[T],
    b: usize,
    t: usize,
    c: usize,
)
    requires
        b * t <= old(mean).len(),
        b * t <= old(rstd).len(),
        (b * t) * c <= old(out).len(),
        (b * t) * c <= inp.len(),
        b * t > 0 ==> c <= weight.len() && c <= bias.len(),
    ensures
        layer_normalised(
            old(out)@,
            final(out)@,
            old(mean)@,
            final(mean)@,
            old(rstd)@,
            final(rstd)@,
            inp@,
            weight@,
            bias@,
            b * t,
            c as int,
        ),
{
    let n: usize = b * t;
    let ghost out0 = out@;
    let ghost mean0 = mean@;
    let ghost rstd0 = rstd@;
    for r in 0..n
        invariant
            n <= mean.len(),
            n <= rstd.len(),
            n * c <= out.len(),
            n * c <= inp.len(),
            n > 0 ==> c <= weight.len() && c <= bias.len(),
            layer_normalised(
                out0,
                out@,
                mean0,
                mean@,
                rstd0,
                rstd@,
                inp@,
                weight@,
                bias@,
                r as int,
                c as int,
            ),
    {
        proof {
            lemma_row_bound(r as int, c as int, c as int, n as int);
        }
        let ghost prior = out@;
        let x = slice_subrange(inp, r * c, r * c + c);
        let out_bt = window_mut(out, r * c, c);
        let (m, s) = normalise_row(out_bt, x, weight, bias);
        mean[r] = m;
        rstd[r] = s;
        proof {
            lemma_row_step(out0, prior, r as int, c as int, n as int, out_bt@);
        }
    }
}

/// The two means that the gradient of a row is corrected by.
fn gradient_means<T: Scalar>(
    weight: &[T],
    dout: &[T],
    x: &[T],
    m: &Traced<T>,
    s: &Traced<T>,
) -> (r: (Traced<T>, Traced<T>))
    requires
        x.len() <= weight.len(),
        x.len() <= dout.len(),
        m.ok(),
        m.e@ == lit(m.v),
        s.ok(),
        s.e@ == lit(s.v),
    ensures
        r.0.ok(),
        r.0.e@ == dnorm_total(weight@, dout@, x@.len() as int).over(Expr::Count(x.len())),
        r.1.ok(),
        r.1.e@ == dnorm_norm_total(weight@, dout@, x@, m.v, s.v, x@.len() as int).over(
            Expr::Count(x.len()),
        ),
{
    let mut dnorm_mean = Traced::zero();
    let mut dnorm_norm_mean = Traced::zero();
    for i in 0..x.len()
        invariant
            x.len() <= weight.len(),
            x.len() <= dout.len(),
            m.ok(),
            m.e@ == lit(m.v),
            s.ok(),
            s.e@ == lit(s.v),
            dnorm_mean.ok(),
            dnorm_mean.e@ == dnorm_total(weight@, dout@, i as int),
            dnorm_norm_mean.ok(),
            dnorm_norm_mean.e@ == dnorm_norm_total(weight@, dout@, x@, m.v, s.v, i as int),
    {
        let norm_i = Traced::quote(x[i]).minus(m).times(s);
        let dnorm_i = Traced::quote(weight[i]).times(&Traced::quote(dout[i]));
        dnorm_mean = dnorm_mean.plus(&dnorm_i);
        dnorm_norm_mean = dnorm_norm_mean.plus(&dnorm_i.times(&norm_i));
    }
    let count = Traced::count(x.len());
    (dnorm_mean.over(&count), dnorm_norm_mean.over(&count))
}

/// Adds the gradient through the normalisation of `b` times `t` rows of `c` elements to those
/// of the input, the weight and the shift.
pub fn layernorm_backward<T: Scalar>(
    dinp: &mut [T],
    dweight: &mut [T],
    dbias: &mut [T],
    dout: &[T],
    inp: &[T],
    weight: &[T],
    mean: &[T],
    rstd: &[T],
    b: usize,
    t: usize,
    c: usize,
)
    requires
        b * t <= mean.len(),
        b * t <= rstd.len(),
        (b * t) * c <= old(dinp).len(),
        (b * t) * c <= dout.len(),
        (b * t) * c <= inp.len(),
        b * t > 0 ==> c <= weight.len() && c <= old(dweight).len() && c <= old(dbias).len(),
    ensures
        layer_carried_back(
            old(dinp)@,
            final(dinp)@,
            old(dweight)@,
            final(dweight)@,
            old(dbias)@,
            final(dbias)@,
            dout@,
            inp@,
            weight@,
            mean@,
            rstd@,
            b * t,
            c as int,
        ),
{
    let n: usize = b * t;
    let ghost dinp0 = dinp@;
    let ghost dweight0 = dweight@;
    let ghost dbias0 = dbias@;
    proof {
        assert forall|x: T| #[trigger] evals(lit(x), x) by {
            lemma_lit(x);
        }
    }
    for r in 0..n
        invariant
            n <= mean.len(),
            n <= rstd.len(),
            n * c <= dinp.len(),
            n * c <= dout.len(),
            n * c <= inp.len(),
            n > 0 ==> c <= weight.len() && c <= dweight.len() && c <= dbias.len(),
            layer_carried_back(
                dinp0,
                dinp@,
                dweight0,
                dweight@,
                dbias0,
                dbias@,
                dout@,
                inp@,
                weight@,
                mean@,
                rstd@,
                r as int,
                c as int,
            ),
    {
        proof {
            lemma_row_bound(r as int, c as int, c as int, n as int);
        }
        let ghost prior = dinp@;
        let dout_bt = slice_subrange(dout, r * c, r * c + c);
        let inp_bt = slice_subrange(inp, r * c, r * c + c);
        let m = Traced::quote(mean[r]);
        let s = Traced::quote(rstd[r]);
        let (dnorm_mean, dnorm_norm_mean) = gradient_means(weight, dout_bt, inp_bt, &m, &s);
        let dinp_bt = window_mut(dinp, r * c, c);
        let ghost bt0 = dinp_bt@;
        for i in 0..c
            invariant
                c == dout_bt.len(),
                c == inp_bt.len(),
                c == dinp_bt.len(),
                c <= weight.len(),
                c <= dweight.len(),
                c <= dbias.len(),
                r < n,
                dout_bt@ == row(dout@, r as int, c as int),
                inp_bt@ == row(inp@, r as int, c as int),
                m.ok(),
                m.e@ == lit(mean@[r as int]),
                m.v == mean@[r as int],
                s.ok(),
                s.e@ == lit(rstd@[r as int]),
                s.v == rstd@[r as int],
                dnorm_mean.ok(),
                dnorm_mean.e@ == dnorm_total(weight@, dout_bt@, c as int).over(Expr::Count(c)),
                dnorm_norm_mean.ok(),
                dnorm_norm_mean.e@ == dnorm_norm_total(
                    weight@,
                    dout_bt@,
                    inp_bt@,
                    m.v,
                    s.v,
                    c as int,
                ).over(Expr::Count(c)),
                bt0.len() == c,
                forall|j: int|
                    0 <= j < c ==> if j < i {
                        evals(
                            lit(bt0[j]).plus(
                                row_gradient(weight@, dout_bt@, inp_bt@, m.v, s.v, j),
                            ),
                            #[trigger] dinp_bt@[j],
                        )
                    } else {
                        dinp_bt@[j] == bt0[j]
                    },
                dweight.len() == dweight0.len(),
                dbias.len() == dbias0.len(),
                forall|j: int|
                    0 <= j < dweight@.len() ==> if j < c {
                        evals(
                            weight_gradient(
                                lit(dweight0[j]),
                                dout@,
                                inp@,
                                mean@,
                                rstd@,
                                j,
                                c as int,
                                if j < i {
                                    r + 1
                                } else {
                                    r as int
                                },
                            ),
                            #[trigger] dweight@[j],
                        )
                    } else {
                        dweight@[j] == dweight0[j]
                    },
                forall|j: int|
                    0 <= j < dbias@.len() ==> if j < c {
                        evals(
                            shift_gradient(
                                lit(dbias0[j]),
                                dout@,
                                j,
                                c as int,
                                if j < i {
                                    r + 1
                                } else {
                                    r as int
                                },
                            ),
                            #[trigger] dbias@[j],
                        )
                    } else {
                        dbias@[j] == dbias0[j]
                    },
        {
            let d = Traced::quote(dout_bt[i]);
            let norm_i = Traced::quote(inp_bt[i]).minus(&m).times(&s);
            let dnorm_i = Traced::quote(weight[i]).times(&d);
            let shift = Traced {
                v: dbias[i],
                e: Ghost(shift_gradient(lit(dbias0[i as int]), dout@, i as int, c as int, r as int)),
            };
            dbias[i] = shift.plus(&d).v;
            let scale = Traced {
                v: dweight[i],
                e: Ghost(
                    weight_gradient(
                        lit(dweight0[i as int]),
                        dout@,
                        inp@,
                        mean@,
                        rstd@,
                        i as int,
                        c as int,
                        r as int,
                    ),
                ),
            };
            dweight[i] = scale.plus(&norm_i.times(&d)).v;
            let dval = dnorm_i.minus(&dnorm_mean).minus(&norm_i.times(&dnorm_norm_mean)).times(&s);
            dinp_bt[i] = Traced::quote(dinp_bt[i]).plus(&dval).v;
        }
        proof {
            lemma_row_step(dinp0, prior, r as int, c as int, n as int, dinp_bt@);
        }
    }
}

} // verus!
