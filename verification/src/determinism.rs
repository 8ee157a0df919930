//! What follows where the operations of the scalar type are functions.
//!
//! No contract assumes this. Where it holds, two computations on the same operands agree.

use vstd::prelude::*;

use crate::buffer::{lemma_row_bound, resized, row, splice};
use crate::crossentropy::losses_carried_back;
use crate::encoder::{encoded, positions_carried_back, tokens_carried_back};
use crate::gelu::{gelu_applied, gelu_carried_back};
use crate::layernorm::{layer_carried_back, layer_normalised};
use crate::matmul::{
    bias_carried_back, bias_sum, biased, gemm_gives, input_carried_back, multiplies, projected,
    weight_carried_back,
};
use crate::residual::residual_sum;
use crate::scalar::{
    applies, combines, evals, inverts, names, Binary, Expr, Named, Scalar, Transpose, Unary,
};
use crate::softmax::{softmax_by, softmax_of};
use crate::tensors::{acts_resized, Acts};

verus! {

/// The operations of the scalar type are functions: what they give depends on nothing but their
/// operands.
#[verifier::opaque]
pub open spec fn functional<T: Scalar>() -> bool {
    &&& forall|k: Named, v: T, w: T| #[trigger]
        names(k, v) && #[trigger] names(k, w) ==> v == w
    &&& forall|m: u64, p: u32, v: T, w: T|
        #![trigger call_ensures(T::decimal, (m, p), v), call_ensures(T::decimal, (m, p), w)]
        call_ensures(T::decimal, (m, p), v) && call_ensures(T::decimal, (m, p), w) ==> v == w
    &&& forall|n: usize, v: T, w: T|
        #![trigger call_ensures(T::from_usize, (n,), v), call_ensures(T::from_usize, (n,), w)]
        call_ensures(T::from_usize, (n,), v) && call_ensures(T::from_usize, (n,), w) ==> v == w
    &&& forall|op: Unary, x: T, v: T, w: T| #[trigger]
        applies(op, x, v) && #[trigger] applies(op, x, w) ==> v == w
    &&& forall|op: Binary, x: T, y: T, v: T, w: T| #[trigger]
        combines(op, x, y, v) && #[trigger] combines(op, x, y, w) ==> v == w
    &&& forall|x: T, y: T|
        #![trigger call_ensures(T::eq, (x, y), true)]
        !(call_ensures(T::eq, (x, y), true) && call_ensures(T::eq, (x, y), false))
    &&& forall|
        ta: Transpose,
        tb: Transpose,
        m: int,
        n: int,
        k: int,
        a: Seq<T>,
        b: Seq<T>,
        p: Seq<T>,
        q: Seq<T>,
    |
        #![trigger gemm_gives(ta, tb, m, n, k, a, b, p), gemm_gives(ta, tb, m, n, k, a, b, q)]
        gemm_gives(ta, tb, m, n, k, a, b, p) && gemm_gives(ta, tb, m, n, k, a, b, q) ==> p == q
}

/// The dimensions and the operands are those of a matrix product.
pub open spec fn product_shaped<T>(m: int, n: int, k: int, a: Seq<T>, b: Seq<T>) -> bool {
    &&& 0 <= m <= i32::MAX
    &&& 0 <= n <= i32::MAX
    &&& 0 <= k <= i32::MAX
    &&& m * k <= a.len()
    &&& k * n <= b.len()
}

/// A row of a product depends on nothing but that row of the first operand and the second
/// operand.
#[verifier::opaque]
pub open spec fn rowwise<T: Scalar>() -> bool {
    forall|
        tb: Transpose,
        m: int,
        n: int,
        k: int,
        a1: Seq<T>,
        a2: Seq<T>,
        b: Seq<T>,
        p1: Seq<T>,
        p2: Seq<T>,
        i: int,
    |
        #![trigger multiplies(Transpose::Plain, tb, m, n, k, a1, b, p1), multiplies(
            Transpose::Plain,
            tb,
            m,
            n,
            k,
            a2,
            b,
            p2,
        ), row(p1, i, n)]
        {
            &&& product_shaped(m, n, k, a1, b)
            &&& product_shaped(m, n, k, a2, b)
            &&& multiplies(Transpose::Plain, tb, m, n, k, a1, b, p1)
            &&& multiplies(Transpose::Plain, tb, m, n, k, a2, b, p2)
            &&& 0 <= i < m
            &&& row(a1, i, k) == row(a2, i, k)
        } ==> row(p1, i, n) == row(p2, i, n)
}

/// Where the operations are functions, a formula has one value.
pub proof fn lemma_one_value<T: Scalar>(e: Expr<T>, v: T, w: T)
    requires
        functional::<T>(),
        evals(e, v),
        evals(e, w),
    ensures
        v == w,
    decreases e,
{
    reveal(evals);
    reveal(functional);
    match e {
        Expr::Un(op, a) => {
            let x = choose|x: T| evals(*a, x) && #[trigger] applies(op, x, v);
            let y = choose|y: T| evals(*a, y) && #[trigger] applies(op, y, w);
            lemma_one_value(*a, x, y);
        },
        Expr::Bin(op, a, b) => {
            let (x, y) = choose|x: T, y: T|
                evals(*a, x) && evals(*b, y) && #[trigger] combines(op, x, y, v);
            let (p, q) = choose|p: T, q: T|
                evals(*a, p) && evals(*b, q) && #[trigger] combines(op, p, q, w);
            lemma_one_value(*a, x, p);
            lemma_one_value(*b, y, q);
        },
        _ => {},
    }
}

/// Where the operations are functions, every formula has one value.
pub proof fn lemma_one_value_each<T: Scalar>()
    requires
        functional::<T>(),
    ensures
        forall|e: Expr<T>, v: T, w: T| #[trigger] evals(e, v) && #[trigger] evals(e, w) ==> v == w,
{
    assert forall|e: Expr<T>, v: T, w: T| #[trigger] evals(e, v) && #[trigger] evals(e, w) implies v
        == w by {
        lemma_one_value(e, v, w);
    }
}

/// There is one way to resize a buffer.
pub proof fn lemma_resized_once<T: Scalar>(before: Seq<T>, x: Seq<T>, y: Seq<T>, n: int)
    requires
        functional::<T>(),
        resized(before, x, n),
        resized(before, y, n),
    ensures
        x == y,
{
    lemma_one_value_each::<T>();
    assert(x =~= y);
}

/// A matrix product has one result.
pub proof fn lemma_one_product<T: Scalar>(
    ta: Transpose,
    tb: Transpose,
    m: int,
    n: int,
    k: int,
    a: Seq<T>,
    b: Seq<T>,
    p: Seq<T>,
    q: Seq<T>,
)
    requires
        functional::<T>(),
        multiplies(ta, tb, m, n, k, a, b, p),
        multiplies(ta, tb, m, n, k, a, b, q),
    ensures
        p == q,
{
    let x = choose|x: Seq<T>| #[trigger]
        gemm_gives(ta, tb, m, n, k, a, b, x) && resized(x, p, m * n);
    let y = choose|y: Seq<T>| #[trigger]
        gemm_gives(ta, tb, m, n, k, a, b, y) && resized(y, q, m * n);
    assert(x == y) by {
        reveal(functional);
    }
    lemma_resized_once(x, p, q, m * n);
}

/// A number has one reciprocal.
pub proof fn lemma_one_inverse<T: Scalar>(x: T, v: T, w: T)
    requires
        functional::<T>(),
        inverts(x, v),
        inverts(x, w),
    ensures
        v == w,
{
    lemma_one_value_each::<T>();
    reveal(functional);
}

/// Rows that make up two buffers determine them.
pub proof fn lemma_rows_determine<A>(x: Seq<A>, y: Seq<A>, n: int, w: int)
    requires
        0 <= n,
        0 <= w,
        x.len() == n * w,
        y.len() == n * w,
        forall|r: int| 0 <= r < n ==> #[trigger] row(x, r, w) == row(y, r, w),
    ensures
        x == y,
{
    assert forall|j: int| 0 <= j < x.len() implies x[j] == y[j] by {
        lemma_in_row(j, n, w);
        let r = j / w;
        lemma_row_bound(r, j % w, w, n);
        assert(row(x, r, w) == row(y, r, w));
        assert(row(x, r, w)[j % w] == x[j]);
        assert(row(y, r, w)[j % w] == y[j]);
    }
    assert(x =~= y);
}

/// Every position within `n` rows of `w` elements lies in one of them.
pub proof fn lemma_in_row(j: int, n: int, w: int)
    requires
        0 <= j < n * w,
        0 <= w,
    ensures
        0 < w,
        0 <= j / w < n,
        0 <= j % w < w,
        j == (j / w) * w + j % w,
{
    assert(w != 0) by (nonlinear_arith)
        requires
            0 <= j < n * w,
    ;
    assert(0 <= j / w < n && 0 <= j % w < w && j == (j / w) * w + j % w) by (nonlinear_arith)
        requires
            0 <= j < n * w,
            0 < w,
    ;
}

/// The embeddings of a token at a place are the same in two runs.
pub proof fn lemma_encoded_row<T: Scalar>(
    b1: Seq<T>,
    a1: Seq<T>,
    inp1: Seq<i32>,
    b2: Seq<T>,
    a2: Seq<T>,
    inp2: Seq<i32>,
    wte: Seq<T>,
    wpe: Seq<T>,
    n: int,
    t: int,
    c: int,
    r: int,
)
    requires
        functional::<T>(),
        encoded(b1, a1, inp1, wte, wpe, n, t, c),
        encoded(b2, a2, inp2, wte, wpe, n, t, c),
        0 <= r < n,
        0 <= c,
        n * c <= a1.len(),
        n * c <= a2.len(),
        inp1[r] == inp2[r],
    ensures
        row(a1, r, c) == row(a2, r, c),
{
    lemma_one_value_each::<T>();
    lemma_row_bound(r, c, c, n);
    assert(row(a1, r, c) =~= row(a2, r, c));
}

/// A row is normalised in the same way in two runs.
pub proof fn lemma_normalised_row<T: Scalar>(
    out01: Seq<T>,
    out1: Seq<T>,
    mean01: Seq<T>,
    mean1: Seq<T>,
    rstd01: Seq<T>,
    rstd1: Seq<T>,
    inp1: Seq<T>,
    out02: Seq<T>,
    out2: Seq<T>,
    mean02: Seq<T>,
    mean2: Seq<T>,
    rstd02: Seq<T>,
    rstd2: Seq<T>,
    inp2: Seq<T>,
    weight: Seq<T>,
    bias: Seq<T>,
    n: int,
    c: int,
    r: int,
)
    requires
        functional::<T>(),
        layer_normalised(
            out01,
            out1,
            mean01,
            mean1,
            rstd01,
            rstd1,
            inp1,
            weight,
            bias,
            n,
            c,
        ),
        layer_normalised(
            out02,
            out2,
            mean02,
            mean2,
            rstd02,
            rstd2,
            inp2,
            weight,
            bias,
            n,
            c,
        ),
        0 <= r < n,
        row(inp1, r, c) == row(inp2, r, c),
    ensures
        row(out1, r, c) == row(out2, r, c),
        mean1[r] == mean2[r],
        rstd1[r] == rstd2[r],
{
    lemma_one_value_each::<T>();
    assert(row(out1, r, c) =~= row(out2, r, c));
}

/// A row is projected in the same way in two runs.
pub proof fn lemma_projected_row<T: Scalar>(
    out01: Seq<T>,
    out1: Seq<T>,
    inp1: Seq<T>,
    out02: Seq<T>,
    out2: Seq<T>,
    inp2: Seq<T>,
    weight: Seq<T>,
    bias: Option<Seq<T>>,
    n: int,
    c: int,
    oc: int,
    r: int,
)
    requires
        functional::<T>(),
        rowwise::<T>(),
        projected(out01, out1, inp1, weight, bias, n, c, oc),
        projected(out02, out2, inp2, weight, bias, n, c, oc),
        product_shaped(n, oc, c, inp1, weight),
        product_shaped(n, oc, c, inp2, weight),
        n * oc <= out01.len(),
        n * oc <= out02.len(),
        0 <= r < n,
        row(inp1, r, c) == row(inp2, r, c),
    ensures
        row(out1, r, oc) == row(out2, r, oc),
{
    lemma_one_value_each::<T>();
    lemma_row_bound(r, oc, oc, n);
    let p1 = choose|p: Seq<T>|
        {
            &&& #[trigger] multiplies(
                Transpose::Plain,
                Transpose::Ordinary,
                n,
                oc,
                c,
                inp1,
                weight,
                p,
            )
            &&& match bias {
                Some(bias) => biased(splice(out01, 0, p), out1, bias, oc),
                None => out1 == splice(out01, 0, p),
            }
        };
    let p2 = choose|p: Seq<T>|
        {
            &&& #[trigger] multiplies(
                Transpose::Plain,
                Transpose::Ordinary,
                n,
                oc,
                c,
                inp2,
                weight,
                p,
            )
            &&& match bias {
                Some(bias) => biased(splice(out02, 0, p), out2, bias, oc),
                None => out2 == splice(out02, 0, p),
            }
        };
    let ghost x = row(p1, r, oc);
    let ghost y = row(p2, r, oc);
    assert(x == y) by {
        reveal(rowwise);
    }
    assert forall|j: int| 0 <= j < oc implies row(out1, r, oc)[j] == row(out2, r, oc)[j] by {
        let i = r * oc + j;
        assert(x[j] == p1[i]);
        assert(y[j] == p2[i]);
        assert(splice(out01, 0, p1)[i] == splice(out02, 0, p2)[i]);
        match bias {
            Some(bias) => {
                assert(evals(bias_sum(splice(out01, 0, p1), bias, oc, i), out1[i]));
                assert(evals(bias_sum(splice(out02, 0, p2), bias, oc, i), out2[i]));
            },
            None => {},
        }
    }
    assert(row(out1, r, oc) =~= row(out2, r, oc));
}

/// A row of a sum is the same in two runs.
pub proof fn lemma_residual_row<T: Scalar>(
    b1: Seq<T>,
    a1: Seq<T>,
    x1: Seq<T>,
    y1: Seq<T>,
    b2: Seq<T>,
    a2: Seq<T>,
    x2: Seq<T>,
    y2: Seq<T>,
    n: int,
    c: int,
    r: int,
)
    requires
        functional::<T>(),
        residual_sum(b1, a1, x1, y1, n * c),
        residual_sum(b2, a2, x2, y2, n * c),
        0 <= r < n,
        0 <= c,
        n * c <= a1.len(),
        n * c <= a2.len(),
        n * c <= x1.len(),
        n * c <= x2.len(),
        n * c <= y1.len(),
        n * c <= y2.len(),
        row(x1, r, c) == row(x2, r, c),
        row(y1, r, c) == row(y2, r, c),
    ensures
        row(a1, r, c) == row(a2, r, c),
{
    lemma_one_value_each::<T>();
    lemma_row_bound(r, c, c, n);
    assert forall|j: int| 0 <= j < c implies row(a1, r, c)[j] == row(a2, r, c)[j] by {
        let i = r * c + j;
        assert(x1[i] == row(x1, r, c)[j] && x2[i] == row(x2, r, c)[j]);
        assert(y1[i] == row(y1, r, c)[j] && y2[i] == row(y2, r, c)[j]);
        assert(a1[i] == a2[i]);
    }
    assert(row(a1, r, c) =~= row(a2, r, c));
}

/// A row of activations is the same in two runs.
pub proof fn lemma_gelu_row<T: Scalar>(
    b1: Seq<T>,
    a1: Seq<T>,
    x1: Seq<T>,
    b2: Seq<T>,
    a2: Seq<T>,
    x2: Seq<T>,
    n: int,
    c: int,
    r: int,
)
    requires
        functional::<T>(),
        gelu_applied(b1, a1, x1, n * c),
        gelu_applied(b2, a2, x2, n * c),
        0 <= r < n,
        0 <= c,
        n * c <= a1.len(),
        n * c <= a2.len(),
        n * c <= x1.len(),
        n * c <= x2.len(),
        row(x1, r, c) == row(x2, r, c),
    ensures
        row(a1, r, c) == row(a2, r, c),
{
    lemma_one_value_each::<T>();
    lemma_row_bound(r, c, c, n);
    assert forall|j: int| 0 <= j < c implies row(a1, r, c)[j] == row(a2, r, c)[j] by {
        let i = r * c + j;
        assert(x1[i] == row(x1, r, c)[j] && x2[i] == row(x2, r, c)[j]);
        assert(a1[i] == a2[i]);
    }
    assert(row(a1, r, c) =~= row(a2, r, c));
}

/// Logits have one row of probabilities.
pub proof fn lemma_one_softmax<T: Scalar>(x: Seq<T>, p: Seq<T>, q: Seq<T>)
    requires
        functional::<T>(),
        softmax_of(x, p),
        softmax_of(x, q),
    ensures
        p == q,
{
    lemma_one_value_each::<T>();
    let (top1, powers1, all1, inv1) = choose|top: T, powers: Seq<T>, all: T, inv: T|
        softmax_by(x, p, top, powers, all, inv);
    let (top2, powers2, all2, inv2) = choose|top: T, powers: Seq<T>, all: T, inv: T|
        softmax_by(x, q, top, powers, all, inv);
    assert(top1 == top2);
    assert(powers1 =~= powers2);
    assert(all1 == all2);
    lemma_one_inverse(all1, inv1, inv2);
    assert(p =~= q);
}

/// There is one way to resize the activations.
pub proof fn lemma_acts_resized_once<T: Scalar>(
    before: Acts<T>,
    x: Acts<T>,
    y: Acts<T>,
    b: int,
    t: int,
    l: int,
    nh: int,
    c: int,
    v: int,
)
    requires
        functional::<T>(),
        acts_resized(before, x, b, t, l, nh, c, v),
        acts_resized(before, y, b, t, l, nh, c, v),
    ensures
        x == y,
{
    let n = b * t;
    let h = b * nh;
    lemma_resized_once(before.encoded, x.encoded, y.encoded, n * c);
    lemma_resized_once(before.ln1, x.ln1, y.ln1, l * (n * c));
    lemma_resized_once(before.ln1_mean, x.ln1_mean, y.ln1_mean, l * n);
    lemma_resized_once(before.ln1_rstd, x.ln1_rstd, y.ln1_rstd, l * n);
    lemma_resized_once(before.qkv, x.qkv, y.qkv, l * (n * (3 * c)));
    lemma_resized_once(before.atty, x.atty, y.atty, l * (n * c));
    lemma_resized_once(before.preatt, x.preatt, y.preatt, l * (h * (t * t)));
    lemma_resized_once(before.att, x.att, y.att, l * (h * (t * t)));
    lemma_resized_once(before.attproj, x.attproj, y.attproj, l * (n * c));
    lemma_resized_once(before.residual2, x.residual2, y.residual2, l * (n * c));
    lemma_resized_once(before.ln2, x.ln2, y.ln2, l * (n * c));
    lemma_resized_once(before.ln2_mean, x.ln2_mean, y.ln2_mean, l * n);
    lemma_resized_once(before.ln2_rstd, x.ln2_rstd, y.ln2_rstd, l * n);
    lemma_resized_once(before.fch, x.fch, y.fch, l * (n * (4 * c)));
    lemma_resized_once(before.fch_gelu, x.fch_gelu, y.fch_gelu, l * (n * (4 * c)));
    lemma_resized_once(before.fcproj, x.fcproj, y.fcproj, l * (n * c));
    lemma_resized_once(before.residual3, x.residual3, y.residual3, l * (n * c));
    lemma_resized_once(before.lnf, x.lnf, y.lnf, n * c);
    lemma_resized_once(before.lnf_mean, x.lnf_mean, y.lnf_mean, n);
    lemma_resized_once(before.lnf_rstd, x.lnf_rstd, y.lnf_rstd, n);
    lemma_resized_once(before.logits, x.logits, y.logits, n * v);
    lemma_resized_once(before.probs, x.probs, y.probs, n * v);
    lemma_resized_once(before.losses, x.losses, y.losses, n);
}

/// The gradients of logits come out in one way.
pub proof fn lemma_losses_back_once<T: Scalar>(
    before: Seq<T>,
    x: Seq<T>,
    y: Seq<T>,
    dlosses: Seq<T>,
    probs: Seq<T>,
    targets: Seq<i32>,
    n: int,
    v: int,
)
    requires
        functional::<T>(),
        0 <= n,
        0 <= v,
        n * v <= before.len(),
        losses_carried_back(before, x, dlosses, probs, targets, n, v),
        losses_carried_back(before, y, dlosses, probs, targets, n, v),
    ensures
        x == y,
{
    lemma_one_value_each::<T>();
    assert forall|j: int| 0 <= j < x.len() implies x[j] == y[j] by {
        if j < n * v {
            lemma_in_row(j, n, v);
            let r = j / v;
            lemma_row_bound(r, v, v, n);
            let u = row(x, r, v);
            let w = row(y, r, v);
            assert(u[j % v] == x[j] && w[j % v] == y[j]);
        }
    }
    assert(x =~= y);
}

/// The gradient of the input of a projection comes out in one way.
pub proof fn lemma_input_back_once<T: Scalar>(
    before: Seq<T>,
    x: Seq<T>,
    y: Seq<T>,
    dout: Seq<T>,
    weight: Seq<T>,
    n: int,
    c: int,
    oc: int,
)
    requires
        functional::<T>(),
        input_carried_back(before, x, dout, weight, n, c, oc),
        input_carried_back(before, y, dout, weight, n, c, oc),
    ensures
        x == y,
{
    let p = choose|p: Seq<T>|
        {
            &&& #[trigger] multiplies(
                Transpose::Plain,
                Transpose::Plain,
                n,
                c,
                oc,
                dout,
                weight,
                p,
            )
            &&& x == splice(before, 0, p)
        };
    let q = choose|p: Seq<T>|
        {
            &&& #[trigger] multiplies(
                Transpose::Plain,
                Transpose::Plain,
                n,
                c,
                oc,
                dout,
                weight,
                p,
            )
            &&& y == splice(before, 0, p)
        };
    lemma_one_product(Transpose::Plain, Transpose::Plain, n, c, oc, dout, weight, p, q);
}

/// The gradient of the weight of a projection does not depend on what it was before, but for what
/// lies behind it.
pub proof fn lemma_weight_back_once<T: Scalar>(
    before1: Seq<T>,
    x: Seq<T>,
    before2: Seq<T>,
    y: Seq<T>,
    dout: Seq<T>,
    inp: Seq<T>,
    n: int,
    c: int,
    oc: int,
)
    requires
        functional::<T>(),
        weight_carried_back(before1, x, dout, inp, n, c, oc),
        weight_carried_back(before2, y, dout, inp, n, c, oc),
        before1.len() == before2.len(),
        forall|j: int| oc * c <= j < before1.len() ==> #[trigger] before1[j] == before2[j],
    ensures
        x == y,
{
    let p = choose|p: Seq<T>|
        {
            &&& #[trigger] multiplies(
                Transpose::Ordinary,
                Transpose::Plain,
                oc,
                c,
                n,
                dout,
                inp,
                p,
            )
            &&& x == splice(before1, 0, p)
        };
    let q = choose|p: Seq<T>|
        {
            &&& #[trigger] multiplies(
                Transpose::Ordinary,
                Transpose::Plain,
                oc,
                c,
                n,
                dout,
                inp,
                p,
            )
            &&& y == splice(before2, 0, p)
        };
    lemma_one_product(Transpose::Ordinary, Transpose::Plain, oc, c, n, dout, inp, p, q);
    assert(p.len() == oc * c);
    assert(x =~= y);
}

/// The gradient of a bias comes out in one way.
pub proof fn lemma_bias_back_once<T: Scalar>(
    before: Seq<T>,
    x: Seq<T>,
    y: Seq<T>,
    dout: Seq<T>,
    n: int,
    oc: int,
)
    requires
        functional::<T>(),
        bias_carried_back(before, x, dout, n, oc),
        bias_carried_back(before, y, dout, n, oc),
    ensures
        x == y,
{
    lemma_one_value_each::<T>();
    assert(x =~= y);
}

/// The gradient of the input of an activation comes out in one way.
pub proof fn lemma_gelu_back_once<T: Scalar>(
    before: Seq<T>,
    x: Seq<T>,
    y: Seq<T>,
    inp: Seq<T>,
    dout: Seq<T>,
    n: int,
)
    requires
        functional::<T>(),
        gelu_carried_back(before, x, inp, dout, n),
        gelu_carried_back(before, y, inp, dout, n),
    ensures
        x == y,
{
    lemma_one_value_each::<T>();
    assert(x =~= y);
}

/// The gradients of a normalisation come out in one way.
pub proof fn lemma_layer_back_once<T: Scalar>(
    dinp0: Seq<T>,
    dinp1: Seq<T>,
    dinp2: Seq<T>,
    dweight0: Seq<T>,
    dweight1: Seq<T>,
    dweight2: Seq<T>,
    dbias0: Seq<T>,
    dbias1: Seq<T>,
    dbias2: Seq<T>,
    dout: Seq<T>,
    inp: Seq<T>,
    weight: Seq<T>,
    mean: Seq<T>,
    rstd: Seq<T>,
    n: int,
    c: int,
)
    requires
        functional::<T>(),
        0 <= n,
        0 <= c,
        n * c <= dinp0.len(),
        layer_carried_back(
            dinp0,
            dinp1,
            dweight0,
            dweight1,
            dbias0,
            dbias1,
            dout,
            inp,
            weight,
            mean,
            rstd,
            n,
            c,
        ),
        layer_carried_back(
            dinp0,
            dinp2,
            dweight0,
            dweight2,
            dbias0,
            dbias2,
            dout,
            inp,
            weight,
            mean,
            rstd,
            n,
            c,
        ),
    ensures
        dinp1 == dinp2,
        dweight1 == dweight2,
        dbias1 == dbias2,
{
    lemma_one_value_each::<T>();
    assert forall|j: int| 0 <= j < dinp1.len() implies dinp1[j] == dinp2[j] by {
        if j < n * c {
            lemma_in_row(j, n, c);
            let r = j / c;
            lemma_row_bound(r, c, c, n);
            let u = row(dinp1, r, c);
            let w = row(dinp2, r, c);
            assert(u[j % c] == dinp1[j] && w[j % c] == dinp2[j]);
        }
    }
    assert(dinp1 =~= dinp2);
    assert(dweight1 =~= dweight2);
    assert(dbias1 =~= dbias2);
}

/// The gradients of the embeddings come out in one way.
pub proof fn lemma_embeddings_back_once<T: Scalar>(
    dwte: Seq<T>,
    wte1: Seq<T>,
    wte2: Seq<T>,
    dwpe: Seq<T>,
    wpe1: Seq<T>,
    wpe2: Seq<T>,
    dout: Seq<T>,
    inp: Seq<i32>,
    t: int,
    c: int,
    n: int,
)
    requires
        functional::<T>(),
        tokens_carried_back(dwte, wte1, dout, inp, c, n),
        tokens_carried_back(dwte, wte2, dout, inp, c, n),
        positions_carried_back(dwpe, wpe1, dout, t, c, n),
        positions_carried_back(dwpe, wpe2, dout, t, c, n),
    ensures
        wte1 == wte2,
        wpe1 == wpe2,
{
    lemma_one_value_each::<T>();
    assert(wte1 =~= wte2);
    assert(wpe1 =~= wpe2);
}

} // verus!
