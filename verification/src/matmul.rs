//! Matrix products with an optional bias.

use vstd::arithmetic::div_mod::lemma_mod_decreases;
use vstd::prelude::*;

use crate::buffer::{lay_over, lemma_row_bound, resize, resized, row, splice};
use crate::parallel::map_indices;
use crate::scalar::{evals, lit, nought, stored_cols, Expr, Scalar, Traced, Transpose};

verus! {

/// `prod` may be what the scalar type gives for the product of the matrices `a` and `b`.
pub open spec fn gemm_gives<T: Scalar>(
    trans_a: Transpose,
    trans_b: Transpose,
    m: int,
    n: int,
    k: int,
    a: Seq<T>,
    b: Seq<T>,
    prod: Seq<T>,
) -> bool {
    exists|sa: &[T], sb: &[T], v: Vec<T>|
        {
            &&& sa@ == a
            &&& sb@ == b
            &&& v@ == prod
            &&& #[trigger] call_ensures(
                T::gemm,
                (
                    trans_a,
                    trans_b,
                    m as i32,
                    n as i32,
                    k as i32,
                    sa,
                    stored_cols(trans_a, m, k) as i32,
                    sb,
                    stored_cols(trans_b, k, n) as i32,
                ),
                v,
            )
        }
}

/// `prod` may be the product of the `m` by `k` matrix `a` and the `k` by `n` matrix `b`: the `m`
/// times `n` elements that the scalar type gives for it.
pub open spec fn multiplies<T: Scalar>(
    trans_a: Transpose,
    trans_b: Transpose,
    m: int,
    n: int,
    k: int,
    a: Seq<T>,
    b: Seq<T>,
    prod: Seq<T>,
) -> bool {
    exists|given: Seq<T>| #[trigger]
        gemm_gives(trans_a, trans_b, m, n, k, a, b, given) && resized(given, prod, m * n)
}

/// Element `i` of `base` with the element of the bias for its column, of `oc`, added.
pub open spec fn bias_sum<T>(base: Seq<T>, bias: Seq<T>, oc: int, i: int) -> Expr<T> {
    lit(base[i]).plus(lit(bias[i % oc]))
}

/// `out` is `base` with the bias added to each of its rows of `oc` elements, the last of which
/// may be cut short.
pub open spec fn biased<T: Scalar>(base: Seq<T>, out: Seq<T>, bias: Seq<T>, oc: int) -> bool {
    &&& out.len() == base.len()
    &&& forall|i: int|
        0 <= i < out.len() ==> evals(bias_sum(base, bias, oc, i), #[trigger] out[i])
}

/// `out` is `out0` with the product of the `n` by `c` matrix `inp` and the transpose of the
/// `oc` by `c` matrix `weight` laid over it, and the bias, if there is one, added.
pub open spec fn projected<T: Scalar>(
    out0: Seq<T>,
    out: Seq<T>,
    inp: Seq<T>,
    weight: Seq<T>,
    bias: Option<Seq<T>>,
    n: int,
    c: int,
    oc: int,
) -> bool {
    exists|prod: Seq<T>|
        {
            &&& #[trigger] multiplies(
                Transpose::Plain,
                Transpose::Ordinary,
                n,
                oc,
                c,
                inp,
                weight,
                prod,
            )
            &&& match bias {
                Some(bias) => biased(splice(out0, 0, prod), out, bias, oc),
                None => out == splice(out0, 0, prod),
            }
        }
}

/// The sum of column `o` over the first `n` rows of `oc` elements of `dout`.
pub open spec fn column_total<T>(dout: Seq<T>, o: int, oc: int, n: int) -> Expr<T>
    decreases n,
{
    if n <= 0 {
        nought()
    } else {
        column_total(dout, o, oc, n - 1).plus(lit(row(dout, n - 1, oc)[o]))
    }
}

/// `after` is the gradient `before` of a bias with the sums of the columns of `dout` added.
pub open spec fn bias_carried_back<T: Scalar>(
    before: Seq<T>,
    after: Seq<T>,
    dout: Seq<T>,
    n: int,
    oc: int,
) -> bool {
    &&& after.len() == before.len()
    &&& forall|o: int|
        0 <= o < after.len() ==> if o < oc {
            evals(lit(before[o]).plus(column_total(dout, o, oc, n)), #[trigger] after[o])
        } else {
            after[o] == before[o]
        }
}

/// `dinp` is `dinp0` with the gradient with respect to the input laid over it: the product of
/// the `n` by `oc` matrix `dout` and the `oc` by `c` matrix `weight`.
pub open spec fn input_carried_back<T: Scalar>(
    dinp0: Seq<T>,
    dinp: Seq<T>,
    dout: Seq<T>,
    weight: Seq<T>,
    n: int,
    c: int,
    oc: int,
) -> bool {
    exists|prod: Seq<T>|
        {
            &&& #[trigger] multiplies(
                Transpose::Plain,
                Transpose::Plain,
                n,
                c,
                oc,
                dout,
                weight,
                prod,
            )
            &&& dinp == splice(dinp0, 0, prod)
        }
}

/// `dweight` is `dweight0` with the gradient with respect to the weight laid over it: the
/// product of the transpose of the `n` by `oc` matrix `dout` and the `n` by `c` matrix `inp`.
pub open spec fn weight_carried_back<T: Scalar>(
    dweight0: Seq<T>,
    dweight: Seq<T>,
    dout: Seq<T>,
    inp: Seq<T>,
    n: int,
    c: int,
    oc: int,
) -> bool {
    exists|prod: Seq<T>|
        {
            &&& #[trigger] multiplies(
                Transpose::Ordinary,
                Transpose::Plain,
                oc,
                c,
                n,
                dout,
                inp,
                prod,
            )
            &&& dweight == splice(dweight0, 0, prod)
        }
}

/// Multiplies an `m` by `k` and a `k` by `n` matrix.
pub fn multiply<T: Scalar>(
    trans_a: Transpose,
    trans_b: Transpose,
    m: usize,
    n: usize,
    k: usize,
    a: &[T],
    b: &[T],
) -> (prod: Vec<T>)
    requires
        m <= i32::MAX,
        n <= i32::MAX,
        k <= i32::MAX,
        m * n <= usize::MAX,
        m * k <= a.len(),
        k * n <= b.len(),
    ensures
        multiplies(trans_a, trans_b, m as int, n as int, k as int, a@, b@, prod@),
        prod@.len() == m * n,
{
    let lda = match trans_a {
        Transpose::Plain => k,
        Transpose::Ordinary => m,
    };
    let ldb = match trans_b {
        Transpose::Plain => n,
        Transpose::Ordinary => k,
    };
    proof {
        assert(k * m == m * k && n * k == k * n) by (nonlinear_arith);
    }
    let mut prod = T::gemm(
        trans_a,
        trans_b,
        m as i32,
        n as i32,
        k as i32,
        a,
        lda as i32,
        b,
        ldb as i32,
    );
    proof {
        assert(gemm_gives(
            trans_a,
            trans_b,
            m as int,
            n as int,
            k as int,
            a@,
            b@,
            prod@,
        ));
    }
    resize(&mut prod, m * n);
    prod
}

/// There is an element `i`, and a bias for its column.
pub open spec fn bias_reaches<T>(base: Seq<T>, bias: Seq<T>, oc: usize, i: usize) -> bool {
    i < base.len() && 0 < oc && (oc <= bias.len() || base.len() <= bias.len())
}

/// `r` is element `i` with the bias for its column added.
pub open spec fn bias_added<T: Scalar>(
    base: Seq<T>,
    bias: Seq<T>,
    oc: usize,
    i: usize,
    r: T,
) -> bool {
    evals(bias_sum(base, bias, oc as int, i as int), r)
}

fn add_bias<T: Scalar>(base: &[T], bias: &[T], oc: usize, i: usize) -> (r: T)
    requires
        bias_reaches(base@, bias@, oc, i),
    ensures
        bias_added(base@, bias@, oc, i, r),
{
    proof {
        lemma_mod_decreases(i as nat, oc as nat);
    }
    Traced::quote(base[i]).plus(&Traced::quote(bias[i % oc])).v
}

/// Projects `b` times `t` rows of `c` elements to rows of `oc` elements.
pub fn matmul_forward<T: Scalar>(
    out: &mut [T],
    inp: &[T],
    weight: &[T],
    bias: Option<&[T]>,
    b: usize,
    t: usize,
    c: usize,
    oc: usize,
)
    requires
        b * t <= i32::MAX,
        c <= i32::MAX,
        oc <= i32::MAX,
        (b * t) * oc <= old(out).len(),
        (b * t) * c <= inp.len(),
        oc * c <= weight.len(),
        bias matches Some(bias) ==> 0 < oc && (oc <= bias.len() || old(out).len() <= bias.len()),
    ensures
        projected(
            old(out)@,
            final(out)@,
            inp@,
            weight@,
            match bias {
                Some(bias) => Some(bias@),
                None => None,
            },
            b * t,
            c as int,
            oc as int,
        ),
{
    let n: usize = b * t;
    proof {
        assert(c * oc == oc * c) by (nonlinear_arith);
    }
    let prod = multiply(Transpose::Plain, Transpose::Ordinary, n, oc, c, inp, weight);
    lay_over(out, prod.as_slice());
    if let Some(bias) = bias {
        let base = &*out;
        let with_bias = |i: usize| -> (r: T)
            requires
                bias_reaches(base@, bias@, oc, i),
            ensures
                bias_added(base@, bias@, oc, i, r),
            { add_bias(base, bias, oc, i) };
        let sums = map_indices(base.len(), with_bias);
        lay_over(out, sums.as_slice());
    }
}

/// Adds the sums of the columns of `n` rows of `oc` elements to the gradient of a bias.
pub fn bias_backward<T: Scalar>(dbias: &mut [T], dout: &[T], n: usize, oc: usize)
    requires
        n * oc <= dout.len(),
        oc <= old(dbias).len(),
    ensures
        bias_carried_back(old(dbias)@, final(dbias)@, dout@, n as int, oc as int),
{
    let ghost before = dbias@;
    for o in 0..oc
        invariant
            n * oc <= dout.len(),
            oc <= dbias.len(),
            dbias.len() == before.len(),
            forall|j: int|
                0 <= j < dbias@.len() ==> if j < o {
                    evals(
                        lit(before[j]).plus(column_total(dout@, j, oc as int, n as int)),
                        #[trigger] dbias@[j],
                    )
                } else {
                    dbias@[j] == before[j]
                },
    {
        let mut sum = Traced::zero();
        for r in 0..n
            invariant
                n * oc <= dout.len(),
                o < oc,
                sum.ok(),
                sum.e@ == column_total(dout@, o as int, oc as int, r as int),
        {
            proof {
                lemma_row_bound(r as int, oc as int, oc as int, n as int);
            }
            sum = sum.plus(&Traced::quote(dout[r * oc + o]));
        }
        dbias[o] = Traced::quote(dbias[o]).plus(&sum).v;
    }
}

/// Carries the gradient `dout` of a projection back to its input, its weight and, if there is
/// one, its bias.
pub fn matmul_backward_blas<T: Scalar>(
    dinp: &mut [T],
    dweight: &mut [T],
    dbias: Option<&mut [T]>,
    dout: &[T],
    inp: &[T],
    weight: &[T],
    b: usize,
    t: usize,
    c: usize,
    oc: usize,
)
    requires
        b * t <= i32::MAX,
        c <= i32::MAX,
        oc <= i32::MAX,
        (b * t) * c <= old(dinp).len(),
        oc * c <= old(dweight).len(),
        (b * t) * oc <= dout.len(),
        (b * t) * c <= inp.len(),
        oc * c <= weight.len(),
        dbias matches Some(dbias) ==> oc <= dbias.len(),
    ensures
        input_carried_back(
            old(dinp)@,
            final(dinp)@,
            dout@,
            weight@,
            b * t,
            c as int,
            oc as int,
        ),
        weight_carried_back(
            old(dweight)@,
            final(dweight)@,
            dout@,
            inp@,
            b * t,
            c as int,
            oc as int,
        ),
        dbias matches Some(dbias) ==> bias_carried_back(
            dbias@,
            final(dbias)@,
            dout@,
            b * t,
            oc as int,
        ),
{
    let n: usize = b * t;
    proof {
        assert(oc * n == n * oc) by (nonlinear_arith);
    }
    let prod = multiply(Transpose::Plain, Transpose::Plain, n, c, oc, dout, weight);
    lay_over(dinp, prod.as_slice());
    let prod = multiply(Transpose::Ordinary, Transpose::Plain, oc, c, n, dout, inp);
    lay_over(dweight, prod.as_slice());
    if let Some(dbias) = dbias {
        bias_backward(dbias, dout, n, oc);
    }
}

} // verus!
