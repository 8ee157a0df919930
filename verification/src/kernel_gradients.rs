//! What the gradients of the kernels come to, element by element, where scalars are real numbers.

use vstd::prelude::*;

use crate::buffer::{cell, lemma_row_bound, row, splice};
use crate::crossentropy::{indicator, logits_carried_back, losses_carried_back};
use crate::encoder::{
    position_gradient, positions_carried_back, token_gradient, tokens_carried_back,
};
use crate::gelu::{gelu_carried_back, gelu_coefficient, gelu_inner, gelu_scale, gelu_slope};
use crate::kernel_numbers::{bend, lemma_gelu_inner, lemma_gelu_scale, rest_kept};
use crate::layernorm::{
    dnorm, dnorm_norm_total, dnorm_total, layer_carried_back, normal, row_carried_back,
    row_gradient, shift_gradient, weight_gradient,
};
use crate::matmul::{
    bias_carried_back, column_total, input_carried_back, multiplies, weight_carried_back,
};
use crate::reals::{
    cosh, entry, exact, exact_curves, exact_products, exact_roots, exponential, lemma_product,
    lemma_quotient, lemma_rsum_same, lemma_tens, lemma_worth, rsum, sound, square, tanh, worth,
    Reading,
};
use crate::scalar::{evals, lit, unit, Expr, Scalar, Transpose};

verus! {

/// The gradient of each of `n` rows of an input is the product of that of the row of the output and
/// the columns of the weight.
pub open spec fn input_gradients<T>(
    r: Reading<T>,
    dinp: Seq<T>,
    dout: Seq<T>,
    weight: Seq<T>,
    n: int,
    c: int,
    oc: int,
) -> bool {
    forall|i: int, k: int|
        0 <= i < n && 0 <= k < c ==> (r.val)(dinp[#[trigger] cell(i, c, k)]) == rsum(
            |o: int| (r.val)(dout[i * oc + o]) * (r.val)(weight[o * c + k]),
            oc,
        )
}

/// The gradient of an input of a projection is what the gradient of its output meets in the weight.
pub proof fn lemma_input_gradients<T: Scalar>(
    r: Reading<T>,
    dinp0: Seq<T>,
    dinp: Seq<T>,
    dout: Seq<T>,
    weight: Seq<T>,
    n: int,
    c: int,
    oc: int,
)
    requires
        exact_products(r),
        input_carried_back(dinp0, dinp, dout, weight, n, c, oc),
        0 <= n <= i32::MAX,
        0 <= c <= i32::MAX,
        0 <= oc <= i32::MAX,
        n * oc <= dout.len(),
        oc * c <= weight.len(),
        n * c <= dinp0.len(),
    ensures
        input_gradients(r, dinp, dout, weight, n, c, oc),
{
    let prod = choose|prod: Seq<T>|
        {
            &&& #[trigger] multiplies(
                Transpose::Plain,
                Transpose::Plain,
                n,
                c,
                oc,
                dout,
                weight,
                prod,
            )
            &&& dinp == splice(dinp0, 0, prod)
        };
    assert forall|i: int, k: int| 0 <= i < n && 0 <= k < c implies (r.val)(
        dinp[#[trigger] cell(i, c, k)],
    ) == rsum(|o: int| (r.val)(dout[i * oc + o]) * (r.val)(weight[o * c + k]), oc) by {
        lemma_row_bound(i, k, c, n);
        lemma_product(r, Transpose::Plain, Transpose::Plain, n, c, oc, dout, weight, prod, i, k);
        lemma_rsum_same(
            |l: int|
                (r.val)(entry(Transpose::Plain, dout, oc, i, l)) * (r.val)(
                    entry(Transpose::Plain, weight, c, l, k),
                ),
            |o: int| (r.val)(dout[i * oc + o]) * (r.val)(weight[o * c + k]),
            oc,
        );
    }
}

/// The gradient of a weight is the product of those of the outputs and the inputs, added up over
/// `n` rows.
pub open spec fn weight_gradients<T>(
    r: Reading<T>,
    dweight: Seq<T>,
    dout: Seq<T>,
    inp: Seq<T>,
    n: int,
    c: int,
    oc: int,
) -> bool {
    forall|o: int, k: int|
        0 <= o < oc && 0 <= k < c ==> (r.val)(dweight[#[trigger] cell(o, c, k)]) == rsum(
            |i: int| (r.val)(dout[i * oc + o]) * (r.val)(inp[i * c + k]),
            n,
        )
}

/// The gradient of the weight of a projection is what the gradient of its output meets in the
/// input.
pub proof fn lemma_weight_gradients<T: Scalar>(
    r: Reading<T>,
    dweight0: Seq<T>,
    dweight: Seq<T>,
    dout: Seq<T>,
    inp: Seq<T>,
    n: int,
    c: int,
    oc: int,
)
    requires
        exact_products(r),
        weight_carried_back(dweight0, dweight, dout, inp, n, c, oc),
        0 <= n <= i32::MAX,
        0 <= c <= i32::MAX,
        0 <= oc <= i32::MAX,
        n * oc <= dout.len(),
        n * c <= inp.len(),
        oc * c <= dweight0.len(),
    ensures
        weight_gradients(r, dweight, dout, inp, n, c, oc),
{
    let prod = choose|prod: Seq<T>|
        {
            &&& #[trigger] multiplies(
                Transpose::Ordinary,
                Transpose::Plain,
                oc,
                c,
                n,
                dout,
                inp,
                prod,
            )
            &&& dweight == splice(dweight0, 0, prod)
        };
    assert(oc * n == n * oc) by (nonlinear_arith);
    assert forall|o: int, k: int| 0 <= o < oc && 0 <= k < c implies (r.val)(
        dweight[#[trigger] cell(o, c, k)],
    ) == rsum(|i: int| (r.val)(dout[i * oc + o]) * (r.val)(inp[i * c + k]), n) by {
        lemma_row_bound(o, k, c, oc);
        lemma_product(r, Transpose::Ordinary, Transpose::Plain, oc, c, n, dout, inp, prod, o, k);
        lemma_rsum_same(
            |l: int|
                (r.val)(entry(Transpose::Ordinary, dout, oc, o, l)) * (r.val)(
                    entry(Transpose::Plain, inp, c, l, k),
                ),
            |i: int| (r.val)(dout[i * oc + o]) * (r.val)(inp[i * c + k]),
            n,
        );
    }
}

/// The gradient of a bias grows by those of its column, over `n` rows of the output.
pub open spec fn bias_gradients<T>(
    r: Reading<T>,
    before: Seq<T>,
    after: Seq<T>,
    dout: Seq<T>,
    n: int,
    oc: int,
) -> bool {
    forall|o: int|
        0 <= o < oc ==> (r.val)(#[trigger] after[o]) == (r.val)(before[o]) + rsum(
            |i: int| (r.val)(dout[i * oc + o]),
            n,
        )
}

proof fn lemma_column_total<T: Scalar>(r: Reading<T>, dout: Seq<T>, o: int, oc: int, n: int)
    requires
        0 <= o < oc,
        0 <= n,
        n * oc <= dout.len(),
    ensures
        sound(r, column_total(dout, o, oc, n)),
        worth(r, column_total(dout, o, oc, n)) == rsum(|i: int| (r.val)(dout[i * oc + o]), n),
    decreases n,
{
    reveal_with_fuel(worth, 3);
    reveal_with_fuel(sound, 3);
    if n > 0 {
        lemma_row_bound(n - 1, oc, oc, n);
        lemma_column_total(r, dout, o, oc, n - 1);
        assert(row(dout, n - 1, oc)[o] == dout[(n - 1) * oc + o]);
    }
}

/// The gradient of a bias is that of its column.
pub proof fn lemma_bias_gradients<T: Scalar>(
    r: Reading<T>,
    before: Seq<T>,
    after: Seq<T>,
    dout: Seq<T>,
    n: int,
    oc: int,
)
    requires
        exact(r),
        bias_carried_back(before, after, dout, n, oc),
        0 <= n,
        n * oc <= dout.len(),
        oc <= before.len(),
    ensures
        bias_gradients(r, before, after, dout, n, oc),
{
    assert forall|o: int| 0 <= o < oc implies (r.val)(#[trigger] after[o]) == (r.val)(before[o])
        + rsum(|i: int| (r.val)(dout[i * oc + o]), n) by {
        lemma_column_total(r, dout, o, oc, n);
        let e = lit(before[o]).plus(column_total(dout, o, oc, n));
        assert(evals(e, after[o]));
        reveal_with_fuel(worth, 2);
        reveal_with_fuel(sound, 2);
        lemma_worth(r, e, after[o]);
    }
}

/// The slope of the activation at `x`, twice: `a` is the root of two over pi.
pub open spec fn twice_slope(exp: spec_fn(real) -> real, a: real, x: real) -> real {
    let h = tanh(exp, bend(a, x));
    1real + h + x * (1real - h * h) * (a * (1real + 3real * (44715real / 1000000real) * x * x))
}

/// The gradients of the first `n` inputs of the activation grow by those of its outputs, times its
/// slope.
pub open spec fn activation_gradients<T>(
    r: Reading<T>,
    before: Seq<T>,
    after: Seq<T>,
    inp: Seq<T>,
    dout: Seq<T>,
    n: int,
) -> bool {
    forall|i: int, a: real|
        #![trigger after[i], square(a)]
        0 <= i < n && 0real <= a && square(a) * r.pi == 2real ==> 2real * ((r.val)(after[i]) - (
        r.val)(before[i])) == twice_slope(r.exp, a, (r.val)(inp[i])) * (r.val)(dout[i])
}

/// One over the square of the hyperbolic cosine is one less the square of the hyperbolic tangent.
proof fn lemma_sech(exp: spec_fn(real) -> real, z: real)
    requires
        exponential(exp),
    ensures
        cosh(exp, z) * cosh(exp, z) != 0real,
        1real / (cosh(exp, z) * cosh(exp, z)) == 1real - tanh(exp, z) * tanh(exp, z),
{
    let p = exp(z);
    let q = exp(-z);
    assert(exp(z + (-z)) == p * q);
    assert(z + (-z) == 0real);
    let s = p + q;
    let h = tanh(exp, z);
    let k = cosh(exp, z);
    lemma_quotient(p - q, s, h);
    assert(k * k * 4real == s * s) by (nonlinear_arith)
        requires
            k == s / 2real,
    ;
    assert(k * k != 0real) by (nonlinear_arith)
        requires
            k * k * 4real == s * s,
            0real < s,
    ;
    assert(s * s - (p - q) * (p - q) == 4real) by (nonlinear_arith)
        requires
            s == p + q,
            p * q == 1real,
    ;
    assert((1real - h * h) * (k * k) == 1real) by (nonlinear_arith)
        requires
            h * s == p - q,
            k * k * 4real == s * s,
            s * s - (p - q) * (p - q) == 4real,
    ;
    lemma_quotient(1real, k * k, 1real - h * h);
}

/// The gradient of an input of the activation grows by the slope of the activation.
pub proof fn lemma_activation_gradients<T: Scalar>(
    r: Reading<T>,
    before: Seq<T>,
    after: Seq<T>,
    inp: Seq<T>,
    dout: Seq<T>,
    n: int,
)
    requires
        exact(r),
        exact_roots(r),
        exact_curves(r),
        gelu_carried_back(before, after, inp, dout, n),
        n <= after.len(),
    ensures
        activation_gradients(r, before, after, inp, dout, n),
{
    assert forall|i: int, a: real|
        #![trigger after[i], square(a)]
        0 <= i < n && 0real <= a && square(a) * r.pi == 2real implies 2real * ((r.val)(after[i]) - (
    r.val)(before[i])) == twice_slope(r.exp, a, (r.val)(inp[i])) * (r.val)(dout[i]) by {
        let x = (r.val)(inp[i]);
        let z = bend(a, x);
        lemma_gelu_inner(r, inp[i], a);
        lemma_gelu_scale(r, a);
        lemma_tens();
        assert(exponential(r.exp)) by {
            reveal(exact_curves);
        }
        lemma_sech(r.exp, z);
        let h = tanh(r.exp, z);
        let half = 5real / 10real;
        let k = 44715real / 1000000real;
        let inner = gelu_inner(lit(inp[i]));
        let e_half = Expr::<T>::Decimal(5, 1);
        let e_three = Expr::<T>::Decimal(3, 0);
        let e_sech = unit().over(inner.cosh().times(inner.cosh()));
        let e_steep = unit().plus(
            e_three.times(gelu_coefficient()).times(lit(inp[i])).times(lit(inp[i])),
        );
        let e_x = lit(inp[i]);
        assert(worth(r, e_sech) == 1real - h * h && sound(r, e_sech)) by {
            reveal_with_fuel(worth, 4);
            reveal_with_fuel(sound, 4);
            assert(worth(r, inner.cosh()) == cosh(r.exp, z));
        }
        let steep = 1real + 3real * k * x * x;
        assert(3real / 1real == 3real);
        assert(worth(r, e_steep) == steep && sound(r, e_steep)) by {
            reveal_with_fuel(worth, 6);
            reveal_with_fuel(sound, 6);
            assert(worth(r, e_three) == 3real);
        }
        let e_left = e_half.times(unit().plus(inner.tanh()));
        assert(worth(r, e_left) == half * (1real + h) && sound(r, e_left)) by {
            reveal_with_fuel(worth, 4);
            reveal_with_fuel(sound, 4);
            assert(worth(r, inner.tanh()) == h);
        }
        let e_right = e_x.times(e_half).times(e_sech).times(gelu_scale()).times(e_steep);
        let sech = 1real - h * h;
        assert(worth(r, e_right) == x * half * sech * a * steep && sound(r, e_right)) by {
            reveal_with_fuel(worth, 5);
            reveal_with_fuel(sound, 5);
        }
        let e_slope = e_left.plus(e_right);
        assert(e_slope == gelu_slope(lit(inp[i])));
        let e = lit(before[i]).plus(e_slope.times(lit(dout[i])));
        assert(evals(e, after[i]));
        let slope = half * (1real + h) + x * half * sech * a * steep;
        let d = (r.val)(dout[i]);
        let y = (r.val)(before[i]);
        assert(worth(r, e) == y + slope * d && sound(r, e)) by {
            reveal_with_fuel(worth, 4);
            reveal_with_fuel(sound, 4);
        }
        lemma_worth(r, e, after[i]);
        let twice = 1real + h + x * sech * (a * steep);
        assert(twice == twice_slope(r.exp, a, x));
        assert(2real * slope == twice) by (nonlinear_arith)
            requires
                slope == half * (1real + h) + x * half * sech * a * steep,
                twice == 1real + h + x * sech * (a * steep),
                half == 5real / 10real,
        ;
        assert(2real * (slope * d) == twice * d) by (nonlinear_arith)
            requires
                2real * slope == twice,
        ;
    }
}

/// The gradients of the logits of `n` places grow by those of their losses, times the probability
/// less one for the target.
pub open spec fn logit_gradients<T>(
    r: Reading<T>,
    before: Seq<T>,
    after: Seq<T>,
    dlosses: Seq<T>,
    probs: Seq<T>,
    targets: Seq<i32>,
    n: int,
    v: int,
) -> bool {
    forall|i: int, k: int|
        0 <= i < n && 0 <= k < v ==> (r.val)(after[#[trigger] cell(i, v, k)]) == (r.val)(
            before[i * v + k],
        ) + ((r.val)(probs[i * v + k]) - (if k == targets[i] {
            1real
        } else {
            0real
        })) * (r.val)(dlosses[i])
}

/// The gradient of a logit is its probability, less one for the target.
pub proof fn lemma_logit_gradients_add<T: Scalar>(
    r: Reading<T>,
    before: Seq<T>,
    after: Seq<T>,
    dlosses: Seq<T>,
    probs: Seq<T>,
    targets: Seq<i32>,
    n: int,
    v: int,
)
    requires
        exact(r),
        losses_carried_back(before, after, dlosses, probs, targets, n, v),
        n * v <= after.len(),
        n * v <= probs.len(),
    ensures
        logit_gradients(r, before, after, dlosses, probs, targets, n, v),
{
    assert forall|i: int, k: int| 0 <= i < n && 0 <= k < v implies (r.val)(
        after[#[trigger] cell(i, v, k)],
    ) == (r.val)(before[i * v + k]) + ((r.val)(probs[i * v + k]) - (if k == targets[i] {
        1real
    } else {
        0real
    })) * (r.val)(dlosses[i]) by {
        lemma_row_bound(i, v, v, n);
        let x = row(before, i, v);
        let y = row(after, i, v);
        let p = row(probs, i, v);
        assert(logits_carried_back(x, y, dlosses[i], p, targets[i] as int));
        let e = lit(x[k]).plus(
            lit(p[k]).minus(indicator(k, targets[i] as int)).times(lit(dlosses[i])),
        );
        assert(evals(e, y[k]));
        reveal_with_fuel(worth, 5);
        reveal_with_fuel(sound, 5);
        lemma_worth(r, e, y[k]);
    }
}

/// Element `k` of row `i` with the mean taken off, over the standard deviation.
pub open spec fn normed<T>(
    r: Reading<T>,
    inp: Seq<T>,
    mean: Seq<T>,
    rstd: Seq<T>,
    c: int,
    i: int,
    k: int,
) -> real {
    ((r.val)(inp[i * c + k]) - (r.val)(mean[i])) * (r.val)(rstd[i])
}

/// The gradients of a normalisation: what the gradient of the output brings to a row of the input
/// has its mean, and its mean along the normalised row, taken off. The weight gains what the
/// gradients of the output meet in the normalised rows, and the shift the gradients themselves.
pub open spec fn norm_gradients<T>(
    r: Reading<T>,
    dinp0: Seq<T>,
    dinp: Seq<T>,
    dweight0: Seq<T>,
    dweight: Seq<T>,
    dbias0: Seq<T>,
    dbias: Seq<T>,
    dout: Seq<T>,
    inp: Seq<T>,
    weight: Seq<T>,
    mean: Seq<T>,
    rstd: Seq<T>,
    n: int,
    c: int,
) -> bool {
    &&& forall|i: int, k: int|
        0 <= i < n && 0 <= k < c ==> {
            let d = |j: int| (r.val)(weight[j]) * (r.val)(dout[i * c + j]);
            let x = normed(r, inp, mean, rstd, c, i, k);
            (r.val)(dinp[#[trigger] cell(i, c, k)]) == (r.val)(dinp0[i * c + k]) + (d(k) - rsum(
                d,
                c,
            ) / (c as real) - x * (rsum(
                |j: int| d(j) * normed(r, inp, mean, rstd, c, i, j),
                c,
            ) / (c as real))) * (r.val)(rstd[i])
        }
    &&& forall|k: int|
        0 <= k < c ==> (r.val)(#[trigger] dweight[k]) == (r.val)(dweight0[k]) + rsum(
            |i: int| normed(r, inp, mean, rstd, c, i, k) * (r.val)(dout[i * c + k]),
            n,
        )
    &&& forall|k: int|
        0 <= k < c ==> (r.val)(#[trigger] dbias[k]) == (r.val)(dbias0[k]) + rsum(
            |i: int| (r.val)(dout[i * c + k]),
            n,
        )
}

proof fn lemma_dnorm_total<T: Scalar>(r: Reading<T>, weight: Seq<T>, dout: Seq<T>, n: int)
    requires
        0 <= n,
    ensures
        sound(r, dnorm_total(weight, dout, n)),
        worth(r, dnorm_total(weight, dout, n)) == rsum(
            |j: int| (r.val)(weight[j]) * (r.val)(dout[j]),
            n,
        ),
    decreases n,
{
    reveal_with_fuel(worth, 4);
    reveal_with_fuel(sound, 4);
    if n > 0 {
        lemma_dnorm_total(r, weight, dout, n - 1);
    }
}

proof fn lemma_dnorm_norm_total<T: Scalar>(
    r: Reading<T>,
    weight: Seq<T>,
    dout: Seq<T>,
    x: Seq<T>,
    m: T,
    s: T,
    n: int,
)
    requires
        0 <= n,
    ensures
        sound(r, dnorm_norm_total(weight, dout, x, m, s, n)),
        worth(r, dnorm_norm_total(weight, dout, x, m, s, n)) == rsum(
            |j: int|
                (r.val)(weight[j]) * (r.val)(dout[j]) * (((r.val)(x[j]) - (r.val)(m)) * (r.val)(s)),
            n,
        ),
    decreases n,
{
    reveal_with_fuel(worth, 6);
    reveal_with_fuel(sound, 6);
    if n > 0 {
        lemma_dnorm_norm_total(r, weight, dout, x, m, s, n - 1);
    }
}

proof fn lemma_shift_gradient<T: Scalar>(
    r: Reading<T>,
    base: T,
    dout: Seq<T>,
    k: int,
    c: int,
    n: int,
)
    requires
        0 <= k < c,
        0 <= n,
        n * c <= dout.len(),
    ensures
        sound(r, shift_gradient(lit(base), dout, k, c, n)),
        worth(r, shift_gradient(lit(base), dout, k, c, n)) == (r.val)(base) + rsum(
            |i: int| (r.val)(dout[i * c + k]),
            n,
        ),
    decreases n,
{
    reveal_with_fuel(worth, 3);
    reveal_with_fuel(sound, 3);
    if n > 0 {
        lemma_row_bound(n - 1, c, c, n);
        lemma_shift_gradient(r, base, dout, k, c, n - 1);
        assert(row(dout, n - 1, c)[k] == dout[(n - 1) * c + k]);
    }
}

proof fn lemma_weight_gradient<T: Scalar>(
    r: Reading<T>,
    base: T,
    dout: Seq<T>,
    inp: Seq<T>,
    mean: Seq<T>,
    rstd: Seq<T>,
    k: int,
    c: int,
    n: int,
)
    requires
        0 <= k < c,
        0 <= n,
        n * c <= dout.len(),
        n * c <= inp.len(),
    ensures
        sound(r, weight_gradient(lit(base), dout, inp, mean, rstd, k, c, n)),
        worth(r, weight_gradient(lit(base), dout, inp, mean, rstd, k, c, n)) == (r.val)(base)
            + rsum(
            |i: int| normed(r, inp, mean, rstd, c, i, k) * (r.val)(dout[i * c + k]),
            n,
        ),
    decreases n,
{
    reveal_with_fuel(worth, 5);
    reveal_with_fuel(sound, 5);
    if n > 0 {
        lemma_row_bound(n - 1, c, c, n);
        lemma_weight_gradient(r, base, dout, inp, mean, rstd, k, c, n - 1);
        assert(row(dout, n - 1, c)[k] == dout[(n - 1) * c + k]);
        assert(row(inp, n - 1, c)[k] == inp[(n - 1) * c + k]);
    }
}

proof fn lemma_row_gradient<T: Scalar>(
    r: Reading<T>,
    weight: Seq<T>,
    dout: Seq<T>,
    x: Seq<T>,
    m: T,
    s: T,
    k: int,
)
    requires
        0 <= k < x.len() <= usize::MAX,
    ensures
        sound(r, row_gradient(weight, dout, x, m, s, k)),
        ({
            let c = x.len() as real;
            let d = |j: int| (r.val)(weight[j]) * (r.val)(dout[j]);
            let y = |j: int| ((r.val)(x[j]) - (r.val)(m)) * (r.val)(s);
            worth(r, row_gradient(weight, dout, x, m, s, k)) == (d(k) - rsum(d, x.len() as int) / c
                - y(k) * (rsum(|j: int| d(j) * y(j), x.len() as int) / c)) * (r.val)(s)
        }),
{
    let c = x.len() as int;
    lemma_dnorm_total(r, weight, dout, c);
    lemma_dnorm_norm_total(r, weight, dout, x, m, s, c);
    let d = |j: int| (r.val)(weight[j]) * (r.val)(dout[j]);
    let y = |j: int| ((r.val)(x[j]) - (r.val)(m)) * (r.val)(s);
    lemma_rsum_same(
        |j: int|
            (r.val)(weight[j]) * (r.val)(dout[j]) * (((r.val)(x[j]) - (r.val)(m)) * (r.val)(s)),
        |j: int| d(j) * y(j),
        c,
    );
    let count = Expr::<T>::Count(x.len() as usize);
    let e1 = dnorm_total(weight, dout, c).over(count);
    let e2 = dnorm_norm_total(weight, dout, x, m, s, c).over(count);
    assert(worth(r, e1) == rsum(d, c) / (c as real) && sound(r, e1)) by {
        reveal_with_fuel(worth, 2);
        reveal_with_fuel(sound, 2);
    }
    assert(worth(r, e2) == rsum(|j: int| d(j) * y(j), c) / (c as real) && sound(r, e2)) by {
        reveal_with_fuel(worth, 2);
        reveal_with_fuel(sound, 2);
    }
    let e3 = normal(x[k], m, s);
    assert(worth(r, e3) == y(k) && sound(r, e3)) by {
        reveal_with_fuel(worth, 4);
        reveal_with_fuel(sound, 4);
    }
    let e4 = dnorm(weight, dout, k);
    assert(worth(r, e4) == d(k) && sound(r, e4)) by {
        reveal_with_fuel(worth, 3);
        reveal_with_fuel(sound, 3);
    }
    let e = e4.minus(e1).minus(e3.times(e2)).times(lit(s));
    assert(e == row_gradient(weight, dout, x, m, s, k));
    reveal_with_fuel(worth, 5);
    reveal_with_fuel(sound, 5);
}

/// The gradients of a normalisation are those of the mean and the standard deviation too.
pub proof fn lemma_norm_gradients<T: Scalar>(
    r: Reading<T>,
    dinp0: Seq<T>,
    dinp: Seq<T>,
    dweight0: Seq<T>,
    dweight: Seq<T>,
    dbias0: Seq<T>,
    dbias: Seq<T>,
    dout: Seq<T>,
    inp: Seq<T>,
    weight: Seq<T>,
    mean: Seq<T>,
    rstd: Seq<T>,
    n: int,
    c: int,
)
    requires
        exact(r),
        layer_carried_back(
            dinp0,
            dinp,
            dweight0,
            dweight,
            dbias0,
            dbias,
            dout,
            inp,
            weight,
            mean,
            rstd,
            n,
            c,
        ),
        0 <= n,
        0 < c <= usize::MAX,
        n * c <= dinp0.len(),
        n * c <= dout.len(),
        n * c <= inp.len(),
        c <= dweight0.len(),
        c <= dbias0.len(),
    ensures
        norm_gradients(
            r,
            dinp0,
            dinp,
            dweight0,
            dweight,
            dbias0,
            dbias,
            dout,
            inp,
            weight,
            mean,
            rstd,
            n,
            c,
        ),
{
    assert forall|i: int, k: int| 0 <= i < n && 0 <= k < c implies {
        let d = |j: int| (r.val)(weight[j]) * (r.val)(dout[i * c + j]);
        let x = normed(r, inp, mean, rstd, c, i, k);
        (r.val)(dinp[#[trigger] cell(i, c, k)]) == (r.val)(dinp0[i * c + k]) + (d(k) - rsum(d, c)
            / (c as real) - x * (rsum(|j: int| d(j) * normed(r, inp, mean, rstd, c, i, j), c) / (
        c as real))) * (r.val)(rstd[i])
    } by {
        lemma_row_bound(i, c, c, n);
        let x0 = row(dinp0, i, c);
        let x1 = row(dinp, i, c);
        let y = row(dout, i, c);
        let z = row(inp, i, c);
        assert(row_carried_back(x0, x1, weight, y, z, mean[i], rstd[i]));
        lemma_row_gradient(r, weight, y, z, mean[i], rstd[i], k);
        let g = row_gradient(weight, y, z, mean[i], rstd[i], k);
        let e = lit(x0[k]).plus(g);
        assert(evals(e, x1[k]));
        assert(worth(r, e) == (r.val)(x0[k]) + worth(r, g) && sound(r, e)) by {
            reveal_with_fuel(worth, 2);
            reveal_with_fuel(sound, 2);
        }
        lemma_worth(r, e, x1[k]);
        let d0 = |j: int| (r.val)(weight[j]) * (r.val)(y[j]);
        let n0 = |j: int| ((r.val)(z[j]) - (r.val)(mean[i])) * (r.val)(rstd[i]);
        let d = |j: int| (r.val)(weight[j]) * (r.val)(dout[i * c + j]);
        lemma_rsum_same(d0, d, c);
        lemma_rsum_same(
            |j: int| d0(j) * n0(j),
            |j: int| d(j) * normed(r, inp, mean, rstd, c, i, j),
            c,
        );
    }
    assert forall|k: int| 0 <= k < c implies (r.val)(#[trigger] dweight[k]) == (r.val)(dweight0[k])
        + rsum(
        |i: int| normed(r, inp, mean, rstd, c, i, k) * (r.val)(dout[i * c + k]),
        n,
    ) by {
        lemma_weight_gradient(r, dweight0[k], dout, inp, mean, rstd, k, c, n);
        lemma_worth(
            r,
            weight_gradient(lit(dweight0[k]), dout, inp, mean, rstd, k, c, n),
            dweight[k],
        );
    }
    assert forall|k: int| 0 <= k < c implies (r.val)(#[trigger] dbias[k]) == (r.val)(dbias0[k])
        + rsum(|i: int| (r.val)(dout[i * c + k]), n) by {
        lemma_shift_gradient(r, dbias0[k], dout, k, c, n);
        lemma_worth(r, shift_gradient(lit(dbias0[k]), dout, k, c, n), dbias[k]);
    }
}

/// What place `i` adds to the gradient of channel `k` of token `w`: its own if it holds it.
pub open spec fn token_share<T>(
    r: Reading<T>,
    dout: Seq<T>,
    inputs: Seq<i32>,
    c: int,
    w: int,
    k: int,
    i: int,
) -> real {
    if inputs[i] == w {
        (r.val)(dout[i * c + k])
    } else {
        0real
    }
}

/// The gradients of the embedding of token `w` grow by those of the places that hold it.
pub open spec fn token_gradients<T>(
    r: Reading<T>,
    before: Seq<T>,
    after: Seq<T>,
    dout: Seq<T>,
    inputs: Seq<i32>,
    n: int,
    c: int,
) -> bool {
    forall|w: int, k: int|
        0 <= w && 0 <= k < c && cell(w, c, k) < after.len() ==> (r.val)(
            after[#[trigger] cell(w, c, k)],
        ) == (r.val)(before[w * c + k]) + rsum(
            |i: int| token_share(r, dout, inputs, c, w, k, i),
            n,
        )
}

/// What place `i` adds to the gradient of channel `k` of position `w`: its own if it is at it.
pub open spec fn position_share<T>(
    r: Reading<T>,
    dout: Seq<T>,
    t: int,
    c: int,
    w: int,
    k: int,
    i: int,
) -> real {
    if i % t == w {
        (r.val)(dout[i * c + k])
    } else {
        0real
    }
}

/// The gradients of the embedding of position `w` grow by those of the places at it, in sequences
/// of `t` tokens.
pub open spec fn position_gradients<T>(
    r: Reading<T>,
    before: Seq<T>,
    after: Seq<T>,
    dout: Seq<T>,
    t: int,
    n: int,
    c: int,
) -> bool {
    forall|w: int, k: int|
        0 <= w && 0 <= k < c && cell(w, c, k) < after.len() ==> (r.val)(
            after[#[trigger] cell(w, c, k)],
        ) == (r.val)(before[w * c + k]) + rsum(
            |i: int| position_share(r, dout, t, c, w, k, i),
            n,
        )
}

/// A position lies in the row of a table that it is counted to, and in no other.
proof fn lemma_in_this_row(w: int, k: int, c: int, x: int)
    requires
        0 <= k < c,
    ensures
        x * c <= w * c + k < x * c + c <==> x == w,
{
    assert(x * c <= w * c + k < x * c + c <==> x == w) by (nonlinear_arith)
        requires
            0 <= k < c,
    ;
}

proof fn lemma_token_gradient<T: Scalar>(
    r: Reading<T>,
    base: T,
    w: int,
    k: int,
    dout: Seq<T>,
    inputs: Seq<i32>,
    c: int,
    n: int,
)
    requires
        0 <= k < c,
        0 <= n,
        n * c <= dout.len(),
    ensures
        sound(r, token_gradient(lit(base), w * c + k, dout, inputs, c, n)),
        worth(r, token_gradient(lit(base), w * c + k, dout, inputs, c, n)) == (r.val)(base) + rsum(
            |i: int| token_share(r, dout, inputs, c, w, k, i),
            n,
        ),
    decreases n,
{
    reveal_with_fuel(worth, 3);
    reveal_with_fuel(sound, 3);
    if n > 0 {
        lemma_row_bound(n - 1, c, c, n);
        lemma_token_gradient(r, base, w, k, dout, inputs, c, n - 1);
        lemma_in_this_row(w, k, c, inputs[n - 1] as int);
        if inputs[n - 1] == w {
            assert(row(dout, n - 1, c)[k] == dout[(n - 1) * c + k]);
        }
    }
}

proof fn lemma_position_gradient<T: Scalar>(
    r: Reading<T>,
    base: T,
    w: int,
    k: int,
    dout: Seq<T>,
    t: int,
    c: int,
    n: int,
)
    requires
        0 <= k < c,
        0 <= n,
        n * c <= dout.len(),
    ensures
        sound(r, position_gradient(lit(base), w * c + k, dout, t, c, n)),
        worth(r, position_gradient(lit(base), w * c + k, dout, t, c, n)) == (r.val)(base) + rsum(
            |i: int| position_share(r, dout, t, c, w, k, i),
            n,
        ),
    decreases n,
{
    reveal_with_fuel(worth, 3);
    reveal_with_fuel(sound, 3);
    if n > 0 {
        lemma_row_bound(n - 1, c, c, n);
        lemma_position_gradient(r, base, w, k, dout, t, c, n - 1);
        lemma_in_this_row(w, k, c, (n - 1) % t);
        if (n - 1) % t == w {
            assert(row(dout, n - 1, c)[k] == dout[(n - 1) * c + k]);
        }
    }
}

/// The gradient of the embedding of a token is that of the places that hold the token.
pub proof fn lemma_token_gradients<T: Scalar>(
    r: Reading<T>,
    before: Seq<T>,
    after: Seq<T>,
    dout: Seq<T>,
    inputs: Seq<i32>,
    n: int,
    c: int,
)
    requires
        exact(r),
        tokens_carried_back(before, after, dout, inputs, c, n),
        0 <= n,
        n * c <= dout.len(),
    ensures
        token_gradients(r, before, after, dout, inputs, n, c),
{
    assert forall|w: int, k: int|
        0 <= w && 0 <= k < c && cell(w, c, k) < after.len() implies (r.val)(
        after[#[trigger] cell(w, c, k)],
    ) == (r.val)(before[w * c + k]) + rsum(
        |i: int| token_share(r, dout, inputs, c, w, k, i),
        n,
    ) by {
        let p = w * c + k;
        assert(0 <= p) by (nonlinear_arith)
            requires
                p == w * c + k,
                0 <= w,
                0 <= k < c,
        ;
        lemma_token_gradient(r, before[p], w, k, dout, inputs, c, n);
        lemma_worth(r, token_gradient(lit(before[p]), p, dout, inputs, c, n), after[p]);
    }
}

/// The gradient of the embedding of a position is that of the places at the position.
pub proof fn lemma_position_gradients<T: Scalar>(
    r: Reading<T>,
    before: Seq<T>,
    after: Seq<T>,
    dout: Seq<T>,
    t: int,
    n: int,
    c: int,
)
    requires
        exact(r),
        positions_carried_back(before, after, dout, t, c, n),
        0 <= n,
        n * c <= dout.len(),
    ensures
        position_gradients(r, before, after, dout, t, n, c),
{
    assert forall|w: int, k: int|
        0 <= w && 0 <= k < c && cell(w, c, k) < after.len() implies (r.val)(
        after[#[trigger] cell(w, c, k)],
    ) == (r.val)(before[w * c + k]) + rsum(
        |i: int| position_share(r, dout, t, c, w, k, i),
        n,
    ) by {
        let p = w * c + k;
        assert(0 <= p) by (nonlinear_arith)
            requires
                p == w * c + k,
                0 <= w,
                0 <= k < c,
        ;
        lemma_position_gradient(r, before[p], w, k, dout, t, c, n);
        lemma_worth(r, position_gradient(lit(before[p]), p, dout, t, c, n), after[p]);
    }
}

/// The gradients of the kernels reach no more than what the kernels are computed on.
pub proof fn lemma_rest_kept_back<T: Scalar>(
    before: Seq<T>,
    after: Seq<T>,
    dweight0: Seq<T>,
    dweight: Seq<T>,
    dbias0: Seq<T>,
    dbias: Seq<T>,
    x: Seq<T>,
    y: Seq<T>,
    w: Seq<T>,
    mean: Seq<T>,
    rstd: Seq<T>,
    targets: Seq<i32>,
    n: int,
    c: int,
    oc: int,
)
    requires
        0 <= n,
        0 <= c,
        0 <= oc,
    ensures
        input_carried_back(before, after, x, y, n, c, oc) ==> rest_kept(before, after, n * c),
        weight_carried_back(before, after, x, y, n, c, oc) ==> rest_kept(before, after, oc * c),
        bias_carried_back(before, after, x, n, oc) ==> rest_kept(before, after, oc),
        gelu_carried_back(before, after, x, y, n) ==> rest_kept(before, after, n),
        losses_carried_back(before, after, x, y, targets, n, c) ==> rest_kept(before, after, n * c),
        layer_carried_back(
            before,
            after,
            dweight0,
            dweight,
            dbias0,
            dbias,
            x,
            y,
            w,
            mean,
            rstd,
            n,
            c,
        ) ==> rest_kept(before, after, n * c) && rest_kept(dweight0, dweight, c) && rest_kept(
            dbias0,
            dbias,
            c,
        ),
{
}

} // verus!
