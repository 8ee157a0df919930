//! What the steps of the optimiser come to, where scalars are real numbers.

use vstd::prelude::*;

use crate::model::{moments_start, next_m, next_param, next_v, stepped, Model};
use crate::reals::{
    exact, exact_roots, lemma_decimal, lemma_quotient, lemma_root, lemma_rsum_same, lemma_tens,
    lemma_worth, power, rsum, sound, square,
    worth, Reading,
};
use crate::scalar::{lit, unit, Expr, Named, Scalar};
use crate::training::{training_rates, updated, Rates};

verus! {

/// The magnitude of a number.
pub open spec fn magnitude(x: real) -> real {
    if x < 0real {
        -x
    } else {
        x
    }
}

/// The gradient of parameter `i` that a step is taken along.
pub open spec fn slope<T>(r: Reading<T>, before: Seq<Model<T>>, i: int) -> spec_fn(int) -> real {
    |s: int| (r.val)(before[s].grads_memory[i])
}

/// Steps 1, 2 and so on have been taken from no moments, with the same rates. Between two steps
/// the moments have been kept. Parameter `i` takes part in all of them.
pub open spec fn steps_taken<T: Scalar>(
    before: Seq<Model<T>>,
    after: Seq<Model<T>>,
    rates: Rates<T>,
    i: int,
) -> bool {
    &&& 0 < before.len() == after.len() < i32::MAX
    &&& before[0].m_memory.len() == 0
    &&& forall|s: int|
        0 <= s < before.len() ==> #[trigger] updated(before[s], after[s], rates, (s + 1) as usize)
    &&& forall|s: int|
        0 <= s < before.len() ==> 0 <= i < (#[trigger] before[s]).num_parameters
            && before[s].num_parameters <= before[s].params_memory.len()
    &&& forall|s: int|
        0 < s < before.len() ==> (#[trigger] before[s]).m_memory == after[s - 1].m_memory
            && before[s].v_memory == after[s - 1].v_memory
}

/// The rates of the moments are such that both keep a part of what they were.
pub open spec fn rates_proper<T>(r: Reading<T>, rates: Rates<T>) -> bool {
    &&& 0real <= (r.val)(rates.beta1) < 1real
    &&& 0real <= (r.val)(rates.beta2) < 1real
}

/// One step moves the moments of a parameter towards its gradient and its square.
proof fn lemma_moments_step<T: Scalar>(
    r: Reading<T>,
    before: Model<T>,
    after: Model<T>,
    rates: Rates<T>,
    t: usize,
    i: int,
    m: real,
    v: real,
)
    requires
        exact(r),
        updated(before, after, rates, t),
        0 <= i < before.num_parameters,
        before.m_memory.len() == 0 ==> m == 0real && v == 0real,
        before.m_memory.len() > 0 ==> i < before.m_memory.len() && i < before.v_memory.len() && (
        r.val)(before.m_memory[i]) == m && (r.val)(before.v_memory[i]) == v,
    ensures
        ({
            let g = (r.val)(before.grads_memory[i]);
            let b1 = (r.val)(rates.beta1);
            let b2 = (r.val)(rates.beta2);
            &&& i < after.m_memory.len()
            &&& i < after.v_memory.len()
            &&& (r.val)(after.m_memory[i]) == b1 * m + (1real - b1) * g
            &&& (r.val)(after.v_memory[i]) == b2 * v + (1real - b2) * g * g
        }),
{
    let (m0, v0) = choose|m0: Seq<T>, v0: Seq<T>| #[trigger]
        moments_start(before, m0, v0) && stepped(
            before.params_memory,
            after.params_memory,
            m0,
            after.m_memory,
            v0,
            after.v_memory,
            before.grads_memory,
            before.num_parameters as int,
            rates.learning_rate,
            rates.beta1,
            rates.beta2,
            rates.eps,
            rates.weight_decay,
            t,
        );
    reveal_with_fuel(worth, 5);
    reveal_with_fuel(sound, 5);
    if before.m_memory.len() == 0 {
        lemma_worth(r, Expr::Const(Named::Zero), m0[i]);
        lemma_worth(r, Expr::Const(Named::Zero), v0[i]);
    }
    lemma_worth(r, next_m(m0[i], before.grads_memory[i], rates.beta1), after.m_memory[i]);
    lemma_worth(r, next_v(v0[i], before.grads_memory[i], rates.beta2), after.v_memory[i]);
}

/// The sum of the first `n` gradients, each `b` times less than the one after it.
pub open spec fn faded(b: real, g: spec_fn(int) -> real, n: int) -> real {
    rsum(|s: int| power(b, n - 1 - s) * g(s), n)
}

/// With every gradient, what was there before fades.
proof fn lemma_faded_step(b: real, g: spec_fn(int) -> real, n: int)
    requires
        0 <= n,
    ensures
        faded(b, g, n + 1) == b * faded(b, g, n) + g(n),
{
    lemma_faded_upto(b, g, n, n);
    let f = |s: int| power(b, n - s) * g(s);
    assert(faded(b, g, n + 1) == rsum(|s: int| power(b, n + 1 - 1 - s) * g(s), n + 1));
    lemma_rsum_same(|s: int| power(b, n + 1 - 1 - s) * g(s), f, n + 1);
    assert(rsum(f, n + 1) == rsum(f, n) + f(n));
    assert(f(n) == power(b, 0) * g(n));
}

proof fn lemma_faded_upto(b: real, g: spec_fn(int) -> real, n: int, k: int)
    requires
        0 <= k <= n,
    ensures
        rsum(|s: int| power(b, n - s) * g(s), k) == b * rsum(
            |s: int| power(b, n - 1 - s) * g(s),
            k,
        ),
    decreases k,
{
    let f = |s: int| power(b, n - s) * g(s);
    let h = |s: int| power(b, n - 1 - s) * g(s);
    if k > 0 {
        lemma_faded_upto(b, g, n, k - 1);
        let p = power(b, n - k);
        let x = g(k - 1);
        let y = rsum(h, k - 1);
        assert(f(k - 1) == power(b, n - k + 1) * x);
        assert(power(b, n - k + 1) == p * b);
        assert(h(k - 1) == p * x);
        assert((p * b) * x + b * y == b * (y + p * x)) by (nonlinear_arith);
        assert(rsum(f, k) == rsum(f, k - 1) + f(k - 1));
        assert(rsum(h, k) == y + h(k - 1));
    } else {
        assert(rsum(f, 0) == 0real);
        assert(rsum(h, 0) == 0real);
    }
}

/// The moments are averages that fade: after step `n` from no moments, the first moment of a
/// parameter is one less the rate, times the sum of all gradients so far, each faded by the rate
/// once for every step that came after it. The second moment is the same for their squares.
pub proof fn lemma_moments_fade<T: Scalar>(
    r: Reading<T>,
    before: Seq<Model<T>>,
    after: Seq<Model<T>>,
    rates: Rates<T>,
    i: int,
    n: int,
)
    requires
        exact(r),
        steps_taken(before, after, rates, i),
        0 < n <= before.len(),
    ensures
        i < after[n - 1].m_memory.len(),
        i < after[n - 1].v_memory.len(),
        (r.val)(after[n - 1].m_memory[i]) == (1real - (r.val)(rates.beta1)) * faded(
            (r.val)(rates.beta1),
            slope(r, before, i),
            n,
        ),
        (r.val)(after[n - 1].v_memory[i]) == (1real - (r.val)(rates.beta2)) * faded(
            (r.val)(rates.beta2),
            |s: int| square((r.val)(before[s].grads_memory[i])),
            n,
        ),
    decreases n,
{
    let b1 = (r.val)(rates.beta1);
    let b2 = (r.val)(rates.beta2);
    let g1 = slope(r, before, i);
    let g2 = |s: int| square((r.val)(before[s].grads_memory[i]));
    let s = n - 1;
    let f1 = faded(b1, g1, s);
    let f2 = faded(b2, g2, s);
    let m = (1real - b1) * f1;
    let v = (1real - b2) * f2;
    assert(updated(before[s], after[s], rates, (s + 1) as usize));
    if s > 0 {
        lemma_moments_fade(r, before, after, rates, i, s);
        assert(before[s].m_memory == after[s - 1].m_memory);
    } else {
        assert(f1 == 0real && f2 == 0real);
        assert(m == 0real) by (nonlinear_arith)
            requires
                m == (1real - b1) * f1,
                f1 == 0real,
        ;
        assert(v == 0real) by (nonlinear_arith)
            requires
                v == (1real - b2) * f2,
                f2 == 0real,
        ;
    }
    lemma_moments_step(r, before[s], after[s], rates, n as usize, i, m, v);
    lemma_faded_step(b1, g1, s);
    lemma_faded_step(b2, g2, s);
    let g = (r.val)(before[s].grads_memory[i]);
    assert(b1 * ((1real - b1) * f1) + (1real - b1) * g == (1real - b1) * (b1 * f1 + g))
        by (nonlinear_arith);
    assert(b2 * ((1real - b2) * f2) + (1real - b2) * g * g == (1real - b2) * (b2 * f2 + g * g))
        by (nonlinear_arith);
}

/// A power of a number below one is below one.
proof fn lemma_power_below_one(b: real, n: int)
    requires
        0real <= b < 1real,
        0 < n,
    ensures
        0real <= power(b, n) < 1real,
    decreases n,
{
    let p = power(b, n - 1);
    if n > 1 {
        lemma_power_below_one(b, n - 1);
    }
    assert(0real <= p * b < 1real) by (nonlinear_arith)
        requires
            0real <= b < 1real,
            0real <= p <= 1real,
    ;
}

/// A step undoes the start from zero: where `m` and `v` are the moments after step `t`, the
/// parameter moves by the learning rate times the first moment over one less the rate to the
/// power `t`, over the root of the second moment over one less its rate to the power `t` and a
/// small number, and times the decay of the parameter itself.
pub proof fn lemma_step_moves<T: Scalar>(
    r: Reading<T>,
    before: Model<T>,
    after: Model<T>,
    rates: Rates<T>,
    t: usize,
    i: int,
    w: real,
)
    requires
        exact(r),
        exact_roots(r),
        rates_proper(r, rates),
        updated(before, after, rates, t),
        0 < t <= i32::MAX,
        0 <= i < before.num_parameters <= before.params_memory.len(),
        0real <= w,
        w * w * (1real - power((r.val)(rates.beta2), t as int)) == (r.val)(after.v_memory[i]),
        0real < w + (r.val)(rates.eps),
    ensures
        ({
            let x = (r.val)(before.params_memory[i]);
            let y = (r.val)(after.params_memory[i]);
            let lr = (r.val)(rates.learning_rate);
            (x - y - lr * ((r.val)(rates.weight_decay) * x)) * (w + (r.val)(rates.eps)) * (1real
                - power((r.val)(rates.beta1), t as int)) == lr * (r.val)(after.m_memory[i])
        }),
{
    let (m0, v0) = choose|m0: Seq<T>, v0: Seq<T>| #[trigger]
        moments_start(before, m0, v0) && stepped(
            before.params_memory,
            after.params_memory,
            m0,
            after.m_memory,
            v0,
            after.v_memory,
            before.grads_memory,
            before.num_parameters as int,
            rates.learning_rate,
            rates.beta1,
            rates.beta2,
            rates.eps,
            rates.weight_decay,
            t,
        );
    let (b1, b2) = ((r.val)(rates.beta1), (r.val)(rates.beta2));
    let (p1, p2) = (power(b1, t as int), power(b2, t as int));
    lemma_power_below_one(b1, t as int);
    lemma_power_below_one(b2, t as int);
    let m = (r.val)(after.m_memory[i]);
    let v = (r.val)(after.v_memory[i]);
    let (lr, wd, eps) = (
        (r.val)(rates.learning_rate),
        (r.val)(rates.weight_decay),
        (r.val)(rates.eps),
    );
    let x = (r.val)(before.params_memory[i]);
    lemma_quotient(v, 1real - p2, w * w);
    lemma_root(v / (1real - p2), w);
    let e1 = lit(after.m_memory[i]).over(unit().minus(lit(rates.beta1).powi(t as i32)));
    let e2 = lit(after.v_memory[i]).over(unit().minus(lit(rates.beta2).powi(t as i32)));
    assert(worth(r, e1) == m / (1real - p1) && sound(r, e1)) by {
        reveal_with_fuel(worth, 5);
        reveal_with_fuel(sound, 5);
    }
    assert(worth(r, e2) == v / (1real - p2) && sound(r, e2)) by {
        reveal_with_fuel(worth, 5);
        reveal_with_fuel(sound, 5);
    }
    let e3 = e1.over(e2.sqrt().plus(lit(rates.eps)));
    assert(0real <= w * w) by (nonlinear_arith);
    assert(worth(r, e3) == (m / (1real - p1)) / (w + eps) && sound(r, e3)) by {
        reveal_with_fuel(worth, 4);
        reveal_with_fuel(sound, 4);
    }
    let e = lit(before.params_memory[i]).minus(
        lit(rates.learning_rate).times(
            e3.plus(lit(rates.weight_decay).times(lit(before.params_memory[i]))),
        ),
    );
    let h = worth(r, e3);
    assert(worth(r, e) == x - lr * (h + wd * x) && sound(r, e)) by {
        reveal_with_fuel(worth, 5);
        reveal_with_fuel(sound, 5);
    }
    assert(e == next_param(
        before.params_memory[i],
        after.m_memory[i],
        after.v_memory[i],
        rates.learning_rate,
        rates.beta1,
        rates.beta2,
        rates.eps,
        rates.weight_decay,
        t,
    ));
    lemma_worth(r, e, after.params_memory[i]);
    let y = (r.val)(after.params_memory[i]);
    let d = m / (1real - p1);
    let k = 1real - p1;
    let n = w + eps;
    lemma_quotient(m, k, 0real);
    lemma_quotient(d, n, 0real);
    assert(x - y - lr * (wd * x) == lr * h) by (nonlinear_arith)
        requires
            y == x - lr * (h + wd * x),
    ;
    assert((lr * h) * n * k == lr * m) by (nonlinear_arith)
        requires
            h * n == d,
            d * k == m,
    ;
}

/// A gradient that stays the same is followed at the same pace from the first step on: where the
/// gradient of a parameter has been `g` in all steps from no moments, every step moves it by the
/// learning rate times `g` over its magnitude and a small number, and times its own decay.
pub proof fn lemma_steady_pace<T: Scalar>(
    r: Reading<T>,
    before: Seq<Model<T>>,
    after: Seq<Model<T>>,
    rates: Rates<T>,
    i: int,
    g: real,
    n: int,
)
    requires
        exact(r),
        exact_roots(r),
        rates_proper(r, rates),
        steps_taken(before, after, rates, i),
        forall|s: int|
            0 <= s < before.len() ==> (r.val)((#[trigger] before[s]).grads_memory[i]) == g,
        0real < magnitude(g) + (r.val)(rates.eps),
        0 < n <= before.len(),
    ensures
        ({
            let x = (r.val)(before[n - 1].params_memory[i]);
            (r.val)(after[n - 1].params_memory[i]) == x - (r.val)(rates.learning_rate) * (g / (
            magnitude(g) + (r.val)(rates.eps)) + (r.val)(rates.weight_decay) * x)
        }),
{
    lemma_steady_moments(r, before, after, rates, i, g, n);
    let (b1, b2) = ((r.val)(rates.beta1), (r.val)(rates.beta2));
    let (p1, p2) = (power(b1, n), power(b2, n));
    let w = magnitude(g);
    let eps = (r.val)(rates.eps);
    let (lr, wd) = ((r.val)(rates.learning_rate), (r.val)(rates.weight_decay));
    assert(w * w == g * g) by (nonlinear_arith)
        requires
            w == g || w == -g,
    ;
    assert(w * w * (1real - p2) == g * g * (1real - p2));
    assert(updated(before[n - 1], after[n - 1], rates, (n - 1 + 1) as usize));
    assert(before[n - 1].num_parameters <= before[n - 1].params_memory.len());
    lemma_step_moves(r, before[n - 1], after[n - 1], rates, n as usize, i, w);
    lemma_power_below_one(b1, n);
    let x = (r.val)(before[n - 1].params_memory[i]);
    let y = (r.val)(after[n - 1].params_memory[i]);
    let k = 1real - p1;
    let d = w + eps;
    let z = x - y - lr * (wd * x);
    assert(z * d == lr * g) by (nonlinear_arith)
        requires
            z * d * k == lr * (g * k),
            k > 0real,
    ;
    lemma_quotient(g, d, 0real);
    let q = g / d;
    assert(z == lr * q) by (nonlinear_arith)
        requires
            z * d == lr * g,
            q * d == g,
            d > 0real,
    ;
    assert(lr * (q + wd * x) == lr * q + lr * (wd * x)) by (nonlinear_arith);
}

proof fn lemma_steady_moments<T: Scalar>(
    r: Reading<T>,
    before: Seq<Model<T>>,
    after: Seq<Model<T>>,
    rates: Rates<T>,
    i: int,
    g: real,
    n: int,
)
    requires
        exact(r),
        steps_taken(before, after, rates, i),
        forall|s: int|
            0 <= s < before.len() ==> (r.val)((#[trigger] before[s]).grads_memory[i]) == g,
        0 < n <= before.len(),
    ensures
        i < after[n - 1].m_memory.len(),
        i < after[n - 1].v_memory.len(),
        (r.val)(after[n - 1].m_memory[i]) == g * (1real - power((r.val)(rates.beta1), n)),
        (r.val)(after[n - 1].v_memory[i]) == g * g * (1real - power((r.val)(rates.beta2), n)),
    decreases n,
{
    let b1 = (r.val)(rates.beta1);
    let b2 = (r.val)(rates.beta2);
    let s = n - 1;
    let (p1, p2) = (power(b1, s), power(b2, s));
    let m = g * (1real - p1);
    let v = g * g * (1real - p2);
    assert(updated(before[s], after[s], rates, (s + 1) as usize));
    assert((r.val)(before[s].grads_memory[i]) == g);
    if s > 0 {
        lemma_steady_moments(r, before, after, rates, i, g, s);
        assert(before[s].m_memory == after[s - 1].m_memory);
    } else {
        assert(m == 0real && v == 0real) by (nonlinear_arith)
            requires
                m == g * (1real - p1),
                v == g * g * (1real - p2),
                p1 == 1real,
                p2 == 1real,
        ;
    }
    lemma_moments_step(r, before[s], after[s], rates, n as usize, i, m, v);
    assert(b1 * (g * (1real - p1)) + (1real - b1) * g == g * (1real - p1 * b1)) by (nonlinear_arith);
    assert(b2 * (g * g * (1real - p2)) + (1real - b2) * g * g == g * g * (1real - p2 * b2))
        by (nonlinear_arith);
}

/// The optimiser is run with a learning rate of one over ten thousand, rates of nine tenths and of
/// nine hundred and ninety-nine thousandths for the moments, one over a hundred million against
/// division by zero, and without decay.
pub proof fn lemma_training_rates<T: Scalar>(r: Reading<T>, rates: Rates<T>)
    requires
        exact(r),
        training_rates(rates),
    ensures
        (r.val)(rates.learning_rate) * 10000real == 1real,
        (r.val)(rates.beta1) * 10real == 9real,
        (r.val)(rates.beta2) * 1000real == 999real,
        (r.val)(rates.eps) * 100000000real == 1real,
        (r.val)(rates.weight_decay) == 0real,
        rates_proper(r, rates),
{
    lemma_tens();
    lemma_decimal(r, 1, 4, rates.learning_rate);
    lemma_decimal(r, 9, 1, rates.beta1);
    lemma_decimal(r, 999, 3, rates.beta2);
    lemma_decimal(r, 1, 8, rates.eps);
    lemma_worth(r, Expr::Const(Named::Zero), rates.weight_decay);
}

} // verus!
