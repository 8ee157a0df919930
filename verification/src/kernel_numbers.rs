//! What the kernels come to, element by element, where scalars are real numbers.

use vstd::arithmetic::div_mod::lemma_fundamental_div_mod_converse;
use vstd::prelude::*;

use crate::buffer::{cell, lemma_row_bound, row, splice};
use crate::crossentropy::losses_of;
use crate::encoder::encoded;
use crate::gelu::{gelu, gelu_applied, gelu_coefficient, gelu_inner, gelu_scale};
use crate::layernorm::{
    layer_normalised, mean_of, normal, normalised, rstd_of, squared_distances,
};
use crate::matmul::{bias_sum, biased, multiplies, projected};
use crate::reals::{
    entry, exact, exact_curves, exact_limits, exact_products, exact_roots, exponential, lemma_product,
    lemma_quotient, lemma_root, lemma_rsum_same, lemma_shares, lemma_tens, lemma_total, lemma_worth,
    part, parts, rsum, shares, sound, square, tanh, worth, Reading,
};
use crate::residual::residual_sum;
use crate::scalar::{
    combines, evals, lemma_lit, lit, total, unit, Binary, Expr, Scalar, Transpose, Unary,
};
use crate::softmax::{largest, softmax_by, softmax_of, softmax_rows};

verus! {

/// Each of the first `n` elements of `out` is the sum of those of `x` and `y`.
pub open spec fn adds<T>(r: Reading<T>, out: Seq<T>, x: Seq<T>, y: Seq<T>, n: int) -> bool {
    forall|i: int|
        0 <= i < n ==> (r.val)(#[trigger] out[i]) == (r.val)(x[i]) + (r.val)(y[i])
}

/// The sum of two buffers is that of their elements.
pub proof fn lemma_adds<T: Scalar>(
    r: Reading<T>,
    before: Seq<T>,
    out: Seq<T>,
    x: Seq<T>,
    y: Seq<T>,
    n: int,
)
    requires
        exact(r),
        residual_sum(before, out, x, y, n),
        n <= out.len(),
    ensures
        adds(r, out, x, y, n),
{
    assert forall|i: int| 0 <= i < n implies (r.val)(#[trigger] out[i]) == (r.val)(x[i]) + (r.val)(
        y[i],
    ) by {
        reveal_with_fuel(worth, 3);
        reveal_with_fuel(sound, 3);
        lemma_worth(r, lit(x[i]).plus(lit(y[i])), out[i]);
    }
}

/// Each of `n` places is the embedding of its token and that of its position in a sequence of `t`
/// tokens, added up channel by channel.
pub open spec fn embeds<T>(
    r: Reading<T>,
    out: Seq<T>,
    inputs: Seq<i32>,
    wte: Seq<T>,
    wpe: Seq<T>,
    n: int,
    t: int,
    c: int,
) -> bool {
    forall|i: int, k: int|
        0 <= i < n && 0 <= k < c ==> (r.val)(out[#[trigger] cell(i, c, k)]) == (r.val)(
            wte[inputs[i] * c + k],
        ) + (r.val)(wpe[(i % t) * c + k])
}

/// The embedding of a batch is that of its tokens and positions.
pub proof fn lemma_embeds<T: Scalar>(
    r: Reading<T>,
    before: Seq<T>,
    out: Seq<T>,
    inputs: Seq<i32>,
    wte: Seq<T>,
    wpe: Seq<T>,
    n: int,
    t: int,
    c: int,
)
    requires
        exact(r),
        encoded(before, out, inputs, wte, wpe, n, t, c),
        n * c <= out.len(),
        0 < t,
        t * c <= wpe.len(),
        forall|i: int| 0 <= i < n ==> 0 <= #[trigger] inputs[i] && inputs[i] * c + c <= wte.len(),
    ensures
        embeds(r, out, inputs, wte, wpe, n, t, c),
{
    assert forall|i: int, k: int| 0 <= i < n && 0 <= k < c implies (r.val)(
        out[#[trigger] cell(i, c, k)],
    ) == (r.val)(wte[inputs[i] * c + k]) + (r.val)(wpe[(i % t) * c + k]) by {
        lemma_row_bound(i, c, c, n);
        assert(0 <= inputs[i] * c) by (nonlinear_arith)
            requires
                0 <= inputs[i],
                0 <= c,
        ;
        let p = i % t;
        assert(0 <= p < t);
        lemma_row_bound(p, c, c, t);
        let x = row(wte, inputs[i] as int, c);
        let y = row(wpe, p, c);
        let o = row(out, i, c);
        lemma_adds(r, row(before, i, c), o, x, y, c);
        assert(o[k] == out[i * c + k]);
        assert(x[k] == wte[inputs[i] * c + k]);
        assert(y[k] == wpe[p * c + k]);
    }
}

/// Each of `n` rows of `oc` elements is the product of the row of `inp` and the rows of the weight,
/// with the bias added if there is one.
pub open spec fn projects<T>(
    r: Reading<T>,
    out: Seq<T>,
    inp: Seq<T>,
    weight: Seq<T>,
    bias: Option<Seq<T>>,
    n: int,
    c: int,
    oc: int,
) -> bool {
    forall|i: int, o: int|
        0 <= i < n && 0 <= o < oc ==> (r.val)(out[#[trigger] cell(i, oc, o)]) == rsum(
            |k: int| (r.val)(inp[i * c + k]) * (r.val)(weight[o * c + k]),
            c,
        ) + (match bias {
            Some(bias) => (r.val)(bias[o]),
            None => 0real,
        })
}

/// A projection is made of the products of rows.
pub proof fn lemma_projects<T: Scalar>(
    r: Reading<T>,
    before: Seq<T>,
    out: Seq<T>,
    inp: Seq<T>,
    weight: Seq<T>,
    bias: Option<Seq<T>>,
    n: int,
    c: int,
    oc: int,
)
    requires
        exact(r),
        exact_products(r),
        projected(before, out, inp, weight, bias, n, c, oc),
        0 <= n <= i32::MAX,
        0 <= c <= i32::MAX,
        0 <= oc <= i32::MAX,
        n * c <= inp.len(),
        oc * c <= weight.len(),
        n * oc <= before.len(),
    ensures
        projects(r, out, inp, weight, bias, n, c, oc),
{
    let prod = choose|prod: Seq<T>|
        {
            &&& #[trigger] multiplies(
                Transpose::Plain,
                Transpose::Ordinary,
                n,
                oc,
                c,
                inp,
                weight,
                prod,
            )
            &&& match bias {
                Some(bias) => biased(splice(before, 0, prod), out, bias, oc),
                None => out == splice(before, 0, prod),
            }
        };
    assert(c * oc == oc * c) by (nonlinear_arith);
    assert forall|i: int, o: int| 0 <= i < n && 0 <= o < oc implies (r.val)(
        out[#[trigger] cell(i, oc, o)],
    ) == rsum(|k: int| (r.val)(inp[i * c + k]) * (r.val)(weight[o * c + k]), c) + (match bias {
        Some(bias) => (r.val)(bias[o]),
        None => 0real,
    }) by {
        lemma_row_bound(i, o, oc, n);
        let j = cell(i, oc, o);
        lemma_product(r, Transpose::Plain, Transpose::Ordinary, n, oc, c, inp, weight, prod, i, o);
        lemma_rsum_same(
            |l: int|
                (r.val)(entry(Transpose::Plain, inp, c, i, l)) * (r.val)(
                    entry(Transpose::Ordinary, weight, c, l, o),
                ),
            |k: int| (r.val)(inp[i * c + k]) * (r.val)(weight[o * c + k]),
            c,
        );
        let base = splice(before, 0, prod);
        assert(base[j] == prod[j]);
        if let Some(bias) = bias {
            assert(j % oc == o) by {
                lemma_fundamental_div_mod_converse(j, oc, i, o);
            }
            assert(evals(bias_sum(base, bias, oc, j), out[j]));
            reveal_with_fuel(worth, 3);
            reveal_with_fuel(sound, 3);
            lemma_worth(r, bias_sum(base, bias, oc, j), out[j]);
        }
    }
}

/// Each of `n` rows of `c` elements is the row of `inp` with its mean taken off, over its standard
/// deviation, times the weight and with the shift added. The variance has one over a hundred
/// thousand added to it.
pub open spec fn normalises<T>(
    r: Reading<T>,
    out: Seq<T>,
    mean: Seq<T>,
    rstd: Seq<T>,
    inp: Seq<T>,
    weight: Seq<T>,
    bias: Seq<T>,
    n: int,
    c: int,
) -> bool {
    &&& forall|i: int|
        0 <= i < n ==> (r.val)(#[trigger] mean[i]) * (c as real) == rsum(
            |k: int| (r.val)(inp[i * c + k]),
            c,
        )
    &&& forall|i: int|
        0 <= i < n ==> {
            let s = (r.val)(#[trigger] rstd[i]);
            let squares = rsum(|k: int| square((r.val)(inp[i * c + k]) - (r.val)(mean[i])), c);
            0real < s && s * s * (squares / (c as real) + 1real / 100000real) == 1real
        }
    &&& forall|i: int, k: int|
        0 <= i < n && 0 <= k < c ==> (r.val)(out[#[trigger] cell(i, c, k)]) == ((r.val)(
            inp[i * c + k],
        ) - (r.val)(mean[i])) * (r.val)(rstd[i]) * (r.val)(weight[k]) + (r.val)(bias[k])
}

proof fn lemma_squared_distances<T: Scalar>(r: Reading<T>, x: Seq<T>, m: T, n: int)
    requires
        0 <= n,
    ensures
        sound(r, squared_distances(x, m, n)),
        worth(r, squared_distances(x, m, n)) == rsum(
            |k: int| square((r.val)(x[k]) - (r.val)(m)),
            n,
        ),
        0real <= worth(r, squared_distances(x, m, n)),
    decreases n,
{
    reveal_with_fuel(worth, 4);
    reveal_with_fuel(sound, 4);
    if n > 0 {
        lemma_squared_distances(r, x, m, n - 1);
        let d = (r.val)(x[n - 1]) - (r.val)(m);
        assert(0real <= d * d) by (nonlinear_arith);
    }
}

/// The mean and the scale of a row.
proof fn lemma_row_statistics<T: Scalar>(r: Reading<T>, x: Seq<T>, m: T, s: T)
    requires
        exact(r),
        exact_roots(r),
        0 < x.len() <= usize::MAX,
        evals(mean_of(x), m),
        evals(rstd_of(x, m), s),
    ensures
        (r.val)(m) * (x.len() as real) == rsum(|k: int| (r.val)(x[k]), x.len() as int),
        ({
            let squares = rsum(|k: int| square((r.val)(x[k]) - (r.val)(m)), x.len() as int);
            let v = (r.val)(s);
            0real < v && v * v * (squares / (x.len() as real) + 1real / 100000real) == 1real
        }),
{
    let c = x.len() as int;
    let count = Expr::<T>::Count(c as usize);
    let z = c as real;
    lemma_total(r, x, c);
    assert(worth(r, mean_of(x)) == worth(r, total(x, c)) / z && sound(r, mean_of(x))) by {
        reveal_with_fuel(worth, 2);
        reveal_with_fuel(sound, 2);
    }
    lemma_worth(r, mean_of(x), m);
    lemma_quotient(worth(r, total(x, c)), z, 0real);
    lemma_squared_distances(r, x, m, c);
    let squares = squared_distances(x, m, c);
    let q = worth(r, squares);
    let inner = squares.over(count).plus(Expr::Decimal(1, 5));
    lemma_tens();
    let small = 1real / 100000real;
    assert(worth(r, inner) == q / z + small && sound(r, inner)) by {
        reveal_with_fuel(worth, 3);
        reveal_with_fuel(sound, 3);
    }
    let y = q / z + small;
    assert(0real <= q / z) by (nonlinear_arith)
        requires
            0real <= q,
            0real < z,
    ;
    assert(0real < y);
    let (one, w) = parts(Binary::Over, unit(), inner.sqrt(), s);
    let a = part(Unary::Sqrt, inner, w);
    lemma_worth(r, unit(), one);
    lemma_worth(r, inner, a);
    reveal(exact);
    reveal(exact_roots);
    let d = (r.val)(w);
    let v = (r.val)(s);
    assert(0real <= d && d * d == y);
    assert(d != 0real) by (nonlinear_arith)
        requires
            d * d == y,
            0real < y,
    ;
    assert(v * d == 1real);
    assert(v * v * y == 1real && 0real < v) by (nonlinear_arith)
        requires
            v * d == 1real,
            d * d == y,
            0real < d,
    ;
}

/// Normalisation takes the mean off and divides by the standard deviation.
pub proof fn lemma_normalises<T: Scalar>(
    r: Reading<T>,
    out0: Seq<T>,
    out: Seq<T>,
    mean0: Seq<T>,
    mean: Seq<T>,
    rstd0: Seq<T>,
    rstd: Seq<T>,
    inp: Seq<T>,
    weight: Seq<T>,
    bias: Seq<T>,
    n: int,
    c: int,
)
    requires
        exact(r),
        exact_roots(r),
        layer_normalised(out0, out, mean0, mean, rstd0, rstd, inp, weight, bias, n, c),
        0 < c <= usize::MAX,
        n * c <= inp.len(),
        n * c <= out.len(),
    ensures
        normalises(r, out, mean, rstd, inp, weight, bias, n, c),
{
    assert forall|i: int|
        0 <= i < n implies (r.val)(#[trigger] mean[i]) * (c as real) == rsum(
        |k: int| (r.val)(inp[i * c + k]),
        c,
    ) by {
        lemma_row_bound(i, c, c, n);
        let x = row(inp, i, c);
        assert(normalised(row(out, i, c), x, mean[i], rstd[i], weight, bias));
        lemma_row_statistics(r, x, mean[i], rstd[i]);
        lemma_rsum_same(|k: int| (r.val)(x[k]), |k: int| (r.val)(inp[i * c + k]), c);
    }
    assert forall|i: int| 0 <= i < n implies {
        let s = (r.val)(#[trigger] rstd[i]);
        let squares = rsum(|k: int| square((r.val)(inp[i * c + k]) - (r.val)(mean[i])), c);
        0real < s && s * s * (squares / (c as real) + 1real / 100000real) == 1real
    } by {
        lemma_row_bound(i, c, c, n);
        let x = row(inp, i, c);
        assert(normalised(row(out, i, c), x, mean[i], rstd[i], weight, bias));
        lemma_row_statistics(r, x, mean[i], rstd[i]);
        lemma_rsum_same(
            |k: int| square((r.val)(x[k]) - (r.val)(mean[i])),
            |k: int| square((r.val)(inp[i * c + k]) - (r.val)(mean[i])),
            c,
        );
    }
    assert forall|i: int, k: int| 0 <= i < n && 0 <= k < c implies (r.val)(
        out[#[trigger] cell(i, c, k)],
    ) == ((r.val)(inp[i * c + k]) - (r.val)(mean[i])) * (r.val)(rstd[i]) * (r.val)(weight[k]) + (
    r.val)(bias[k]) by {
        lemma_row_bound(i, c, c, n);
        let x = row(inp, i, c);
        let o = row(out, i, c);
        assert(normalised(o, x, mean[i], rstd[i], weight, bias));
        let e = normal(x[k], mean[i], rstd[i]).times(lit(weight[k])).plus(lit(bias[k]));
        assert(evals(e, o[k]));
        reveal_with_fuel(worth, 5);
        reveal_with_fuel(sound, 5);
        lemma_worth(r, e, o[k]);
    }
}

/// The argument of the hyperbolic tangent in the activation of `x`: `a` is the root of two over pi.
pub open spec fn bend(a: real, x: real) -> real {
    a * (x + (44715real / 1000000real) * x * x * x)
}

/// Each of the first `n` elements of `out` is half of `x` times one more than the hyperbolic
/// tangent of the root of two over pi times the sum of `x` and 0.044715 times its cube.
pub open spec fn activates<T>(r: Reading<T>, out: Seq<T>, inp: Seq<T>, n: int) -> bool {
    forall|i: int, a: real|
        #![trigger out[i], square(a)]
        0 <= i < n && 0real <= a && square(a) * r.pi == 2real ==> 2real * (r.val)(out[i]) == (
        r.val)(inp[i]) * (1real + tanh(r.exp, bend(a, (r.val)(inp[i]))))
}

/// The root of two over pi.
pub proof fn lemma_gelu_scale<T: Scalar>(r: Reading<T>, a: real)
    requires
        exact_roots(r),
        exact_curves(r),
        0real <= a,
        square(a) * r.pi == 2real,
    ensures
        sound(r, gelu_scale::<T>()),
        worth(r, gelu_scale::<T>()) == a,
        3real < r.pi,
{
    reveal(exact_curves);
    lemma_tens();
    let y = 2real / r.pi;
    lemma_quotient(2real, r.pi, square(a));
    lemma_root(y, a);
    assert(0real <= square(a)) by (nonlinear_arith);
    reveal_with_fuel(worth, 4);
    reveal_with_fuel(sound, 4);
    assert(2real / 1real == 2real);
}

/// The argument of the hyperbolic tangent in the activation.
pub proof fn lemma_gelu_inner<T: Scalar>(r: Reading<T>, x: T, a: real)
    requires
        exact_roots(r),
        exact_curves(r),
        0real <= a,
        square(a) * r.pi == 2real,
    ensures
        sound(r, gelu_inner(lit(x))),
        worth(r, gelu_inner(lit(x))) == bend(a, (r.val)(x)),
        sound(r, gelu_coefficient::<T>()),
        worth(r, gelu_coefficient::<T>()) == 44715real / 1000000real,
{
    lemma_gelu_scale(r, a);
    lemma_tens();
    let k = gelu_coefficient::<T>();
    let cube = k.times(lit(x)).times(lit(x)).times(lit(x));
    assert(worth(r, k) == 44715real / 1000000real && sound(r, k)) by {
        reveal_with_fuel(worth, 2);
        reveal_with_fuel(sound, 2);
    }
    reveal_with_fuel(worth, 6);
    reveal_with_fuel(sound, 6);
    assert(gelu_inner(lit(x)) == gelu_scale::<T>().times(lit(x).plus(cube)));
}

/// The activation is the one that is known as GELU, in its approximation by a hyperbolic tangent.
pub proof fn lemma_activates<T: Scalar>(
    r: Reading<T>,
    before: Seq<T>,
    out: Seq<T>,
    inp: Seq<T>,
    n: int,
)
    requires
        exact(r),
        exact_roots(r),
        exact_curves(r),
        gelu_applied(before, out, inp, n),
        n <= out.len(),
    ensures
        activates(r, out, inp, n),
{
    assert forall|i: int, a: real|
        #![trigger out[i], square(a)]
        0 <= i < n && 0real <= a && square(a) * r.pi == 2real implies 2real * (r.val)(out[i]) == (
    r.val)(inp[i]) * (1real + tanh(r.exp, bend(a, (r.val)(inp[i])))) by {
        lemma_gelu_inner(r, inp[i], a);
        lemma_tens();
        let x = (r.val)(inp[i]);
        let inner = gelu_inner(lit(inp[i]));
        let th = tanh(r.exp, bend(a, x));
        let half = 5real / 10real;
        let e = gelu(lit(inp[i]));
        assert(evals(e, out[i]));
        assert(worth(r, e) == half * x * (1real + th) && sound(r, e)) by {
            reveal_with_fuel(worth, 4);
            reveal_with_fuel(sound, 4);
            assert(worth(r, inner.tanh()) == th);
            assert(e == Expr::Decimal(5, 1).times(lit(inp[i])).times(unit().plus(inner.tanh())));
        }
        lemma_worth(r, e, out[i]);
        assert(2real * (half * x * (1real + th)) == x * (1real + th)) by (nonlinear_arith)
            requires
                half == 5real / 10real,
        ;
    }
}

/// Each of `n` rows of `v` elements holds shares in proportion to the exponentials of the logits.
pub open spec fn probable<T>(r: Reading<T>, probs: Seq<T>, logits: Seq<T>, n: int, v: int) -> bool {
    forall|i: int|
        0 <= i < n ==> shares(
            r,
            logits.subrange(i * v, i * v + v),
            #[trigger] probs.subrange(i * v, i * v + v),
            v,
        )
}

/// Probabilities are positive, one in all, and in proportion to the exponentials of the logits.
pub proof fn lemma_probable<T: Scalar>(
    r: Reading<T>,
    before: Seq<T>,
    probs: Seq<T>,
    logits: Seq<T>,
    n: int,
    v: int,
)
    requires
        exact(r),
        exact_curves(r),
        softmax_rows(before, probs, logits, n, v),
        0 < v,
        n * v <= probs.len(),
        n * v <= logits.len(),
    ensures
        probable(r, probs, logits, n, v),
{
    assert forall|i: int| 0 <= i < n implies shares(
        r,
        logits.subrange(i * v, i * v + v),
        #[trigger] probs.subrange(i * v, i * v + v),
        v,
    ) by {
        lemma_row_bound(i, v, v, n);
        let x = row(logits, i, v);
        let out = row(probs, i, v);
        assert(softmax_of(x, out));
        let (top, powers, all, inv) = choose|top: T, powers: Seq<T>, all: T, inv: T|
            softmax_by(x, out, top, powers, all, inv);
        assert forall|k: int| 0 <= k < v implies (r.val)(#[trigger] powers[k]) == (r.exp)(
            (r.val)(x[k]) - (r.val)(top),
        ) by {
            let e = lit(x[k]).minus(lit(top)).exp();
            assert(evals(e, powers[k]));
            reveal_with_fuel(worth, 4);
            reveal_with_fuel(sound, 4);
            lemma_worth(r, e, powers[k]);
        }
        lemma_shares(r, x, top, powers, all, inv, out, v);
    }
}

/// What is taken off the logits before the exponential is the largest of them: no exponential is
/// that of a positive number.
pub proof fn lemma_softmax_of_distances<T: Scalar>(
    r: Reading<T>,
    x: Seq<T>,
    out: Seq<T>,
    top: T,
    powers: Seq<T>,
    all: T,
    inv: T,
)
    requires
        exact(r),
        exact_curves(r),
        exact_limits(r),
        0 < x.len(),
        forall|i: int| 0 <= i < x.len() ==> !call_ensures(T::neg_infinity, (), #[trigger] x[i]),
        softmax_by(x, out, top, powers, all, inv),
    ensures
        forall|i: int| 0 <= i < x.len() ==> 0real < (r.val)(#[trigger] powers[i]) <= 1real,
        exists|i: int| 0 <= i < x.len() && (r.val)(#[trigger] powers[i]) == 1real,
{
    lemma_largest(r, x, x.len() as int, top);
    assert(exponential(r.exp)) by {
        reveal(exact_curves);
    }
    assert forall|i: int| 0 <= i < x.len() implies (r.val)(#[trigger] powers[i]) == (r.exp)(
        (r.val)(x[i]) - (r.val)(top),
    ) by {
        let e = lit(x[i]).minus(lit(top)).exp();
        assert(evals(e, powers[i]));
        reveal_with_fuel(worth, 4);
        reveal_with_fuel(sound, 4);
        lemma_worth(r, e, powers[i]);
    }
    assert forall|i: int| 0 <= i < x.len() implies 0real < (r.val)(#[trigger] powers[i])
        <= 1real by {
        let z = (r.val)(x[i]) - (r.val)(top);
        assert(z <= 0real);
        assert((r.exp)(z) <= (r.exp)(0real));
    }
    let i = choose|i: int| 0 <= i < x.len() && #[trigger] x[i] == top;
    assert((r.val)(x[i]) - (r.val)(top) == 0real);
    assert((r.val)(powers[i]) == 1real);
}

proof fn lemma_largest<T: Scalar>(r: Reading<T>, x: Seq<T>, n: int, top: T)
    requires
        exact_limits(r),
        0 < n,
        forall|i: int| 0 <= i < n ==> !call_ensures(T::neg_infinity, (), #[trigger] x[i]),
        evals(largest(x, n), top),
    ensures
        forall|i: int| 0 <= i < n ==> (r.val)(#[trigger] x[i]) <= (r.val)(top),
        exists|i: int| 0 <= i < n && #[trigger] x[i] == top,
    decreases n,
{
    let (z, y) = parts(Binary::Greater, lit(x[n - 1]), largest(x, n - 1), top);
    lemma_lit(x[n - 1]);
    if n > 1 {
        lemma_largest(r, x, n - 1, y);
        let i = choose|i: int| 0 <= i < n - 1 && #[trigger] x[i] == y;
        assert(x[i] == y);
        assert(combines(Binary::Greater, x[n - 1], y, top));
        reveal(exact_limits);
        assert(top == y || top == x[n - 1]);
    } else {
        reveal(evals);
        reveal(exact_limits);
        assert(call_ensures(T::neg_infinity, (), y));
        assert(top == x[0]);
    }
}

/// The loss of each of `n` places is such that the exponential of its negation is the probability
/// of the target.
pub open spec fn loses<T>(
    r: Reading<T>,
    losses: Seq<T>,
    probs: Seq<T>,
    targets: Seq<i32>,
    n: int,
    v: int,
) -> bool {
    forall|i: int|
        0 <= i < n ==> (r.exp)(-(r.val)(#[trigger] losses[i])) == (r.val)(
            probs[i * v + targets[i]],
        )
}

/// A loss is the negated logarithm of the probability of the target.
pub proof fn lemma_loses<T: Scalar>(
    r: Reading<T>,
    before: Seq<T>,
    losses: Seq<T>,
    probs: Seq<T>,
    targets: Seq<i32>,
    n: int,
    v: int,
)
    requires
        exact(r),
        exact_curves(r),
        losses_of(before, losses, probs, targets, n, v),
        n <= losses.len(),
        n * v <= probs.len(),
        forall|i: int| 0 <= i < n ==> 0 <= #[trigger] targets[i] < v,
        forall|i: int|
            0 <= i < n ==> 0real < (r.val)(probs[i * v + #[trigger] targets[i]]),
    ensures
        loses(r, losses, probs, targets, n, v),
{
    assert forall|i: int| 0 <= i < n implies (r.exp)(-(r.val)(#[trigger] losses[i])) == (r.val)(
        probs[i * v + targets[i]],
    ) by {
        assert(0 <= targets[i] < v);
        lemma_row_bound(i, v, v, n);
        let p = row(probs, i, v)[targets[i] as int];
        assert(p == probs[i * v + targets[i]]);
        assert(evals(lit(p).ln().neg(), losses[i]));
        let l = part(Unary::Neg, lit(p).ln(), losses[i]);
        let x = part(Unary::Ln, lit(p), l);
        lemma_lit(p);
        reveal(exact);
        reveal(exact_curves);
        assert(-(-(r.val)(l)) == (r.val)(l));
    }
}

/// The mean of the losses of `n` places.
pub proof fn lemma_mean_loss<T: Scalar>(r: Reading<T>, losses: Seq<T>, n: int, mean_loss: T)
    requires
        exact(r),
        0 < n <= usize::MAX,
        evals(total(losses, n).over(Expr::Count(n as usize)), mean_loss),
    ensures
        (r.val)(mean_loss) * (n as real) == rsum(|i: int| (r.val)(losses[i]), n),
{
    lemma_total(r, losses, n);
    reveal_with_fuel(worth, 2);
    reveal_with_fuel(sound, 2);
    lemma_worth(r, total(losses, n).over(Expr::Count(n as usize)), mean_loss);
    lemma_quotient(worth(r, total(losses, n)), n as real, 0real);
}

/// What lies behind the first `n` elements is as it was.
pub open spec fn rest_kept<A>(before: Seq<A>, after: Seq<A>, n: int) -> bool {
    &&& after.len() == before.len()
    &&& forall|j: int| n <= j < after.len() ==> #[trigger] after[j] == before[j]
}

/// The kernels write to no more than the places that they are computed on.
pub proof fn lemma_rest_kept<T: Scalar>(
    before: Seq<T>,
    after: Seq<T>,
    mean0: Seq<T>,
    mean: Seq<T>,
    rstd0: Seq<T>,
    rstd: Seq<T>,
    x: Seq<T>,
    y: Seq<T>,
    tokens: Seq<i32>,
    n: int,
    t: int,
    c: int,
)
    ensures
        residual_sum(before, after, x, y, n) ==> 0 <= n ==> rest_kept(before, after, n),
        gelu_applied(before, after, x, n) ==> 0 <= n ==> rest_kept(before, after, n),
        encoded(before, after, tokens, x, y, n, t, c) ==> rest_kept(before, after, n * c),
        layer_normalised(before, after, mean0, mean, rstd0, rstd, x, y, y, n, c) ==> rest_kept(
            before,
            after,
            n * c,
        ) && rest_kept(mean0, mean, n) && rest_kept(rstd0, rstd, n),
        softmax_rows(before, after, x, n, c) ==> rest_kept(before, after, n * c),
        losses_of(before, after, x, tokens, n, c) ==> 0 <= n ==> rest_kept(before, after, n),
        projected(before, after, x, y, None, n, t, c) ==> rest_kept(before, after, n * c),
{
}

/// Where an output is longer than the rows that are projected, the bias is added to what lies
/// behind them too.
pub proof fn lemma_bias_behind<T: Scalar>(
    r: Reading<T>,
    before: Seq<T>,
    out: Seq<T>,
    inp: Seq<T>,
    weight: Seq<T>,
    bias: Seq<T>,
    n: int,
    c: int,
    oc: int,
    j: int,
)
    requires
        exact(r),
        projected(before, out, inp, weight, Some(bias), n, c, oc),
        0 <= n,
        0 < oc,
        n * oc <= j < before.len(),
    ensures
        out.len() == before.len(),
        (r.val)(out[j]) == (r.val)(before[j]) + (r.val)(bias[j % oc]),
{
    assert(0 <= n * oc) by (nonlinear_arith)
        requires
            0 <= n,
            0 < oc,
    ;
    let prod = choose|prod: Seq<T>|
        {
            &&& #[trigger] multiplies(
                Transpose::Plain,
                Transpose::Ordinary,
                n,
                oc,
                c,
                inp,
                weight,
                prod,
            )
            &&& biased(splice(before, 0, prod), out, bias, oc)
        };
    let base = splice(before, 0, prod);
    assert(evals(bias_sum(base, bias, oc, j), out[j]));
    reveal_with_fuel(worth, 3);
    reveal_with_fuel(sound, 3);
    lemma_worth(r, bias_sum(base, bias, oc, j), out[j]);
}

} // verus!
