//! The GELU activation, in its tanh approximation.

use vstd::prelude::*;

use crate::scalar::{evals, lit, unit, Expr, Named, Scalar, Traced};

verus! {

/// The square root of two over pi.
pub open spec fn gelu_scale<T>() -> Expr<T> {
    Expr::Decimal(2, 0).over(Expr::Const(Named::Pi)).sqrt()
}

/// The coefficient of the cubic term.
pub open spec fn gelu_coefficient<T>() -> Expr<T> {
    Expr::Decimal(44715, 6)
}

/// The argument of the hyperbolic tangent at `x`.
pub open spec fn gelu_inner<T>(x: Expr<T>) -> Expr<T> {
    gelu_scale().times(x.plus(gelu_coefficient().times(x).times(x).times(x)))
}

/// The activation at `x`.
pub open spec fn gelu<T>(x: Expr<T>) -> Expr<T> {
    Expr::Decimal(5, 1).times(x).times(unit().plus(gelu_inner(x).tanh()))
}

/// The derivative of the activation at `x`.
pub open spec fn gelu_slope<T>(x: Expr<T>) -> Expr<T> {
    let half = Expr::Decimal(5, 1);
    let cosh = gelu_inner(x).cosh();
    let sech = unit().over(cosh.times(cosh));
    let inner_slope = unit().plus(Expr::Decimal(3, 0).times(gelu_coefficient()).times(x).times(x));
    half.times(unit().plus(gelu_inner(x).tanh())).plus(
        x.times(half).times(sech).times(gelu_scale()).times(inner_slope),
    )
}

/// `after` is `before` with its first `n` elements replaced by the activation of those of `inp`.
pub open spec fn gelu_applied<T: Scalar>(
    before: Seq<T>,
    after: Seq<T>,
    inp: Seq<T>,
    n: int,
) -> bool {
    &&& after.len() == before.len()
    &&& forall|i: int|
        0 <= i < after.len() ==> if i < n {
            evals(gelu(lit(inp[i])), #[trigger] after[i])
        } else {
            after[i] == before[i]
        }
}

/// `after` is `before` with the gradient `dout`, carried back through the activation at `inp`,
/// added to its first `n` elements.
pub open spec fn gelu_carried_back<T: Scalar>(
    before: Seq<T>,
    after: Seq<T>,
    inp: Seq<T>,
    dout: Seq<T>,
    n: int,
) -> bool {
    &&& after.len() == before.len()
    &&& forall|i: int|
        0 <= i < after.len() ==> if i < n {
            evals(
                lit(before[i]).plus(gelu_slope(lit(inp[i])).times(lit(dout[i]))),
                #[trigger] after[i],
            )
        } else {
            after[i] == before[i]
        }
}

fn scale<T: Scalar>() -> (r: Traced<T>)
    ensures
        r.ok(),
        r.e@ == gelu_scale::<T>(),
{
    Traced::decimal(2, 0).over(&Traced::pi()).sqrt()
}

/// Writes the activation of the first `n` elements of `inp` to `out`.
pub fn gelu_forward<T: Scalar>(out: &mut [T], inp: &[T], n: usize)
    requires
        n <= old(out)@.len(),
        n <= inp@.len(),
    ensures
        gelu_applied(old(out)@, final(out)@, inp@, n as int),
{
    let s = scale::<T>();
    let k = Traced::<T>::decimal(44715, 6);
    let half = Traced::<T>::decimal(5, 1);
    let one = Traced::<T>::one();
    let ghost before = out@;
    for i in 0..n
        invariant
            n <= before.len(),
            n <= inp@.len(),
            s.ok(),
            s.e@ == gelu_scale::<T>(),
            k.ok(),
            k.e@ == gelu_coefficient::<T>(),
            half.ok(),
            half.e@ == Expr::<T>::Decimal(5, 1),
            one.ok(),
            one.e@ == unit::<T>(),
            gelu_applied(before, out@, inp@, i as int),
    {
        let x = Traced::quote(inp[i]);
        let cube = k.times(&x).times(&x).times(&x);
        let tanh = s.times(&x.plus(&cube)).tanh();
        let y = half.times(&x).times(&one.plus(&tanh));
        out[i] = y.v;
    }
}

/// Adds the gradient with respect to the first `n` elements of `inp` to `dinp`.
pub fn gelu_backward<T: Scalar>(dinp: &mut [T], inp: &[T], dout: &[T], n: usize)
    requires
        n <= old(dinp)@.len(),
        n <= inp@.len(),
        n <= dout@.len(),
    ensures
        gelu_carried_back(old(dinp)@, final(dinp)@, inp@, dout@, n as int),
{
    let s = scale::<T>();
    let k = Traced::<T>::decimal(44715, 6);
    let half = Traced::<T>::decimal(5, 1);
    let one = Traced::<T>::one();
    let three = Traced::<T>::decimal(3, 0);
    let ghost before = dinp@;
    for i in 0..n
        invariant
            n <= before.len(),
            n <= inp@.len(),
            n <= dout@.len(),
            s.ok(),
            s.e@ == gelu_scale::<T>(),
            k.ok(),
            k.e@ == gelu_coefficient::<T>(),
            half.ok(),
            half.e@ == Expr::<T>::Decimal(5, 1),
            one.ok(),
            one.e@ == unit::<T>(),
            three.ok(),
            three.e@ == Expr::<T>::Decimal(3, 0),
            gelu_carried_back(before, dinp@, inp@, dout@, i as int),
    {
        let x = Traced::quote(inp[i]);
        let cube = k.times(&x).times(&x).times(&x);
        let inner = s.times(&x.plus(&cube));
        let tanh = inner.tanh();
        let cosh = inner.cosh();
        let sech = one.over(&cosh.times(&cosh));
        let inner_slope = one.plus(&three.times(&k).times(&x).times(&x));
        let slope = half.times(&one.plus(&tanh)).plus(
            &x.times(&half).times(&sech).times(&s).times(&inner_slope),
        );
        let d = Traced::quote(dinp[i]).plus(&slope.times(&Traced::quote(dout[i])));
        dinp[i] = d.v;
    }
}

} // verus!
