//! What attention comes to, element by element, where scalars are real numbers.
//!
//! Row `bi * t + ti` of the input holds the query, the key and the value of place `ti` of sequence
//! `bi`. Head `h` has `c / nh` channels of each, from channel `h * (c / nh)` on.

use vstd::prelude::*;

use crate::attention::{
    attends, attends_by, greatest, head_output, head_part, head_scale, heads_attend,
    lemma_head_bounds, no_head_output, Attention,
};
use crate::attention_backward::lemma_head_of_pair;
use crate::attention_laws::lemma_place_row;
use crate::buffer::{columns, lemma_columns, lemma_row_bound, row, window};
use crate::reals::{
    entry, exact, exact_curves, exact_limits, exact_products, exact_roots, exponential,
    lemma_product, lemma_rsum_same, lemma_shares, lemma_worth, part, parts, rsum,
    shares, sound, worth, Reading,
};
use crate::scalar::{
    evals, lemma_lit, lit, nought, unit, Binary, Expr, Named, Scalar, Transpose, Unary,
};

verus! {

/// Where channel `k` of head `h` stands at place `ti` of sequence `bi`: of the query (`part` 0),
/// the key (`part` 1) or the value (`part` 2).
pub open spec fn channel(
    bi: int,
    ti: int,
    part: int,
    h: int,
    k: int,
    t: int,
    c: int,
    nh: int,
) -> int {
    (bi * t + ti) * (3 * c) + part * c + h * (c / nh) + k
}

/// Where channel `k` of head `h` stands in the output at place `ti` of sequence `bi`.
pub open spec fn output_channel(
    bi: int,
    ti: int,
    h: int,
    k: int,
    t: int,
    c: int,
    nh: int,
) -> int {
    (bi * t + ti) * c + h * (c / nh) + k
}

/// Where the score of place `tj` for the query of place `ti` stands, for head `h` of sequence `bi`.
pub open spec fn score_place(bi: int, h: int, ti: int, tj: int, t: int, nh: int) -> int {
    ((bi * nh + h) * t + ti) * t + tj
}

/// An element of a block of columns is one of the buffer.
pub proof fn lemma_column_at<A>(
    s: Seq<A>,
    b: int,
    t: int,
    w: int,
    bi: int,
    ti: int,
    at: int,
    hs: int,
    k: int,
)
    requires
        0 <= bi < b,
        0 <= ti < t,
        0 <= at,
        0 <= k < hs,
        at + hs <= w,
        b * (t * w) <= s.len(),
    ensures
        0 <= ti * hs + k < t * hs,
        columns(row(s, bi, t * w), at, hs, w, t).len() == t * hs,
        columns(row(s, bi, t * w), at, hs, w, t)[ti * hs + k] == s[(bi * t + ti) * w + at + k],
{
    let block = row(s, bi, t * w);
    lemma_place_row(s, b, t, w, bi, ti);
    assert(block.len() == t * w);
    lemma_columns(block, at, hs, w, t);
    let cols = columns(block, at, hs, w, t);
    lemma_row_bound(ti, k + 1, hs, t);
    lemma_row_bound(ti, w, w, t);
    assert(row(cols, ti, hs) == window(block, ti * w + at, hs));
    assert(row(cols, ti, hs)[k] == cols[ti * hs + k]);
    assert(window(block, ti * w + at, hs)[k] == block[ti * w + at + k]);
    assert(block[ti * w + (at + k)] == s[bi * (t * w) + (ti * w + (at + k))]);
    assert((bi * t + ti) * w == bi * (t * w) + ti * w) by (nonlinear_arith);
}

/// The channels of the queries, keys or values of a head.
pub proof fn lemma_head_part_at<T>(
    inp: Seq<T>,
    b: int,
    t: int,
    c: int,
    nh: int,
    bi: int,
    h: int,
    part: int,
    ti: int,
    k: int,
)
    requires
        0 <= bi < b,
        0 <= h < nh,
        0 <= part < 3,
        0 <= ti < t,
        0 <= c,
        0 <= k < c / nh,
        b * (t * (3 * c)) <= inp.len(),
    ensures
        0 <= ti * (c / nh) + k < t * (c / nh),
        head_part(inp, bi * nh + h, part, t, c, nh).len() == t * (c / nh),
        head_part(inp, bi * nh + h, part, t, c, nh)[ti * (c / nh) + k] == inp[channel(
            bi,
            ti,
            part,
            h,
            k,
            t,
            c,
            nh,
        )],
{
    lemma_head_of_pair(bi, h, nh);
    lemma_head_bounds(h, nh, c);
    let hs = c / nh;
    let at = part * c + h * hs;
    assert(0 <= part * c && part * c <= 2 * c) by (nonlinear_arith)
        requires
            0 <= part <= 2,
            0 <= c,
    ;
    lemma_column_at(inp, b, t, 3 * c, bi, ti, at, hs, k);
}

/// What one query comes to, for the head that it belongs to.
proof fn lemma_attends_at<T: Scalar>(
    pre0: Seq<T>,
    out0: Seq<T>,
    out: Seq<T>,
    pre: Seq<T>,
    att0: Seq<T>,
    att: Seq<T>,
    inp: Seq<T>,
    b: int,
    t: int,
    c: int,
    nh: int,
    bi: int,
    h: int,
    ti: int,
) -> (by: Attention<T>)
    requires
        heads_attend(out0, out, pre0, pre, att0, att, inp, b * nh, b, t, c, nh),
        0 <= bi < b,
        0 <= h < nh,
        0 <= ti < t,
    ensures
        attends_by(
            head_part(inp, bi * nh + h, 0, t, c, nh),
            head_part(inp, bi * nh + h, 1, t, c, nh),
            head_part(inp, bi * nh + h, 2, t, c, nh),
            row(row(pre0, bi * nh + h, t * t), ti, t),
            row(row(pre, bi * nh + h, t * t), ti, t),
            row(row(att, bi * nh + h, t * t), ti, t),
            row(head_output(out, bi * nh + h, t, c, nh), ti, c / nh),
            ti,
            t,
            c / nh,
            by,
        ),
{
    let g = bi * nh + h;
    lemma_row_bound(bi, h, nh, b);
    let hs = c / nh;
    assert(row(pre, g, t * t) == row(pre, g, t * t));
    let q = head_part(inp, g, 0, t, c, nh);
    let k = head_part(inp, g, 1, t, c, nh);
    let v = head_part(inp, g, 2, t, c, nh);
    let x = row(row(pre0, g, t * t), ti, t);
    let y = row(row(pre, g, t * t), ti, t);
    let z = row(row(att, g, t * t), ti, t);
    let o = row(head_output(out, g, t, c, nh), ti, hs);
    assert(attends(q, k, v, x, y, z, o, ti, t, hs));
    choose|by: Attention<T>| attends_by(q, k, v, x, y, z, o, ti, t, hs, by)
}

/// An element of a table of scores is one of the buffer.
pub proof fn lemma_score_at<A>(s: Seq<A>, b: int, t: int, nh: int, bi: int, h: int, ti: int, tj: int)
    requires
        0 <= bi < b,
        0 <= h < nh,
        0 <= ti < t,
        0 <= tj < t,
        (b * nh) * (t * t) <= s.len(),
    ensures
        0 <= score_place(bi, h, ti, tj, t, nh) < s.len(),
        row(row(s, bi * nh + h, t * t), ti, t).len() == t,
        row(row(s, bi * nh + h, t * t), ti, t)[tj] == s[score_place(bi, h, ti, tj, t, nh)],
{
    let g = bi * nh + h;
    lemma_row_bound(bi, h, nh, b);
    lemma_place_row(s, b * nh, t, t, g, ti);
    lemma_row_bound(g * t + ti, tj, t, (b * nh) * t);
    assert(((b * nh) * t) * t == (b * nh) * (t * t)) by (nonlinear_arith);
}

/// The product of the query of place `ti` and the key of place `tj`, for head `h` of sequence `bi`.
pub open spec fn affinity<T>(
    r: Reading<T>,
    inp: Seq<T>,
    bi: int,
    h: int,
    ti: int,
    tj: int,
    t: int,
    c: int,
    nh: int,
) -> real {
    rsum(
        |k: int|
            (r.val)(inp[channel(bi, ti, 0, h, k, t, c, nh)]) * (r.val)(
                inp[channel(bi, tj, 1, h, k, t, c, nh)],
            ),
        c / nh,
    )
}

/// A scaled product, squared and multiplied by the number that it was scaled with the root of, is
/// the square of the product, and has its sign.
proof fn lemma_scaled<T: Scalar>(r: Reading<T>, score: T, hs: int, x: T)
    requires
        exact(r),
        exact_roots(r),
        0 < hs <= usize::MAX,
        evals(lit(score).times(head_scale(hs)), x),
    ensures
        (r.val)(x) * (r.val)(x) * (hs as real) == (r.val)(score) * (r.val)(score),
        0real <= (r.val)(x) * (r.val)(score),
{
    let count = Expr::<T>::Count(hs as usize);
    let (y, scale) = parts(Binary::Times, lit(score), head_scale(hs), x);
    let (one, w) = parts(Binary::Over, unit(), count.sqrt(), scale);
    let n = part(Unary::Sqrt, count, w);
    let s = (r.val)(score);
    let d = (r.val)(w);
    let a = (r.val)(x);
    let f = (r.val)(scale);
    lemma_worth(r, lit(score), y);
    lemma_worth(r, unit(), one);
    lemma_worth(r, count, n);
    reveal(exact);
    reveal(exact_roots);
    let z = hs as real;
    assert(0real <= d && d * d == z);
    assert(d != 0real) by (nonlinear_arith)
        requires
            d * d == z,
            0real < z,
    ;
    assert(f * d == 1real);
    assert(a == s * f);
    assert(a * d == s) by (nonlinear_arith)
        requires
            a == s * f,
            f * d == 1real,
    ;
    assert(a * a * z == s * s) by (nonlinear_arith)
        requires
            a * d == s,
            d * d == z,
    ;
    assert(0real <= a * s) by (nonlinear_arith)
        requires
            a * d == s,
            0real <= d,
    ;
}

/// The score of place `tj` for the query of place `ti` is the product of query and key over the
/// root of the number of channels of a head: squared and multiplied by that number it is the square
/// of the product, and it has its sign.
pub proof fn lemma_scores<T: Scalar>(
    r: Reading<T>,
    out0: Seq<T>,
    out: Seq<T>,
    pre0: Seq<T>,
    pre: Seq<T>,
    att0: Seq<T>,
    att: Seq<T>,
    inp: Seq<T>,
    b: int,
    t: int,
    c: int,
    nh: int,
    bi: int,
    h: int,
    ti: int,
    tj: int,
)
    requires
        exact(r),
        exact_roots(r),
        exact_products(r),
        heads_attend(out0, out, pre0, pre, att0, att, inp, b * nh, b, t, c, nh),
        0 <= bi < b,
        0 <= h < nh,
        0 <= tj <= ti < t <= i32::MAX,
        0 < c / nh <= i32::MAX,
        0 <= c,
        (b * nh) * (t * t) <= pre.len(),
        b * (t * (3 * c)) <= inp.len(),
    ensures
        ({
            let x = (r.val)(pre[score_place(bi, h, ti, tj, t, nh)]);
            let product = affinity(r, inp, bi, h, ti, tj, t, c, nh);
            &&& x * x * ((c / nh) as real) == product * product
            &&& 0real <= x * product
        }),
{
    let by = lemma_attends_at(pre0, out0, out, pre, att0, att, inp, b, t, c, nh, bi, h, ti);
    let g = bi * nh + h;
    let hs = c / nh;
    let n = ti + 1;
    let q = head_part(inp, g, 0, t, c, nh);
    let k = head_part(inp, g, 1, t, c, nh);
    lemma_head_part_at(inp, b, t, c, nh, bi, h, 0, ti, 0);
    lemma_head_part_at(inp, b, t, c, nh, bi, h, 1, ti, 0);
    lemma_row_bound(ti, hs, hs, t);
    lemma_row_bound(tj, hs, hs, n);
    let keys = k.subrange(0, n * hs);
    let query = row(q, ti, hs);
    assert(n * hs <= keys.len() && hs * 1 <= query.len());
    lemma_product(
        r,
        Transpose::Plain,
        Transpose::Plain,
        n,
        1,
        hs,
        keys,
        query,
        by.scores,
        tj,
        0,
    );
    let f = |l: int|
        (r.val)(entry(Transpose::Plain, keys, hs, tj, l)) * (r.val)(
            entry(Transpose::Plain, query, 1, l, 0),
        );
    let e = |l: int|
        (r.val)(inp[channel(bi, ti, 0, h, l, t, c, nh)]) * (r.val)(
            inp[channel(bi, tj, 1, h, l, t, c, nh)],
        );
    assert forall|l: int| 0 <= l < hs implies #[trigger] f(l) == e(l) by {
        lemma_head_part_at(inp, b, t, c, nh, bi, h, 0, ti, l);
        lemma_head_part_at(inp, b, t, c, nh, bi, h, 1, tj, l);
        lemma_row_bound(tj, l, hs, n);
        assert(keys[tj * hs + l] == k[tj * hs + l]);
        assert(query[l * 1 + 0] == q[ti * hs + l]);
        let u = (r.val)(keys[tj * hs + l]);
        let v = (r.val)(query[l]);
        assert(u * v == v * u) by (nonlinear_arith);
    }
    lemma_rsum_same(f, e, hs);
    let score = by.scores[tj * 1 + 0];
    lemma_score_at(pre, b, t, nh, bi, h, ti, tj);
    let x = row(row(pre, g, t * t), ti, t)[tj];
    assert(evals(lit(by.scores[tj]).times(head_scale(hs)), x));
    lemma_scaled(r, by.scores[tj], hs, x);
}

/// The largest of some numbers is not below any of them.
proof fn lemma_greatest<T: Scalar>(r: Reading<T>, x: Seq<T>, n: int, top: T)
    requires
        exact_limits(r),
        0 < n,
        forall|i: int| 0 <= i < n ==> !call_ensures(T::neg_infinity, (), #[trigger] x[i]),
        evals(greatest(x, n), top),
    ensures
        forall|i: int| 0 <= i < n ==> (r.val)(#[trigger] x[i]) <= (r.val)(top),
        exists|i: int| 0 <= i < n && #[trigger] x[i] == top,
    decreases n,
{
    reveal(exact_limits);
    let (y, z) = parts(Binary::Max, greatest(x, n - 1), lit(x[n - 1]), top);
    lemma_lit(x[n - 1]);
    if n > 1 {
        lemma_greatest(r, x, n - 1, y);
        let i = choose|i: int| 0 <= i < n - 1 && #[trigger] x[i] == y;
        assert(x[i] == y);
        assert(top == y || top == x[n - 1]);
    } else {
        reveal(evals);
        assert(call_ensures(T::neg_infinity, (), y));
        assert(top == x[0]);
    }
}

/// The attention that a query pays is shared out among the places up to its own, in proportion to
/// the exponentials of their scores: every share is positive, they are one in all, and there is
/// none for a later place.
pub proof fn lemma_attention_shares<T: Scalar>(
    r: Reading<T>,
    out0: Seq<T>,
    out: Seq<T>,
    pre0: Seq<T>,
    pre: Seq<T>,
    att0: Seq<T>,
    att: Seq<T>,
    inp: Seq<T>,
    b: int,
    t: int,
    c: int,
    nh: int,
    bi: int,
    h: int,
    ti: int,
)
    requires
        exact(r),
        exact_curves(r),
        exact_limits(r),
        heads_attend(out0, out, pre0, pre, att0, att, inp, b * nh, b, t, c, nh),
        0 <= bi < b,
        0 <= h < nh,
        0 <= ti < t,
        (b * nh) * (t * t) <= pre.len(),
        (b * nh) * (t * t) <= att.len(),
    ensures
        ({
            let at = score_place(bi, h, ti, 0, t, nh);
            shares(r, pre.subrange(at, at + t), att.subrange(at, at + t), ti + 1)
        }),
        forall|tj: int|
            ti < tj < t ==> (r.val)(att[#[trigger] score_place(bi, h, ti, tj, t, nh)]) == 0real,
{
    let by = lemma_attends_at(pre0, out0, out, pre, att0, att, inp, b, t, c, nh, bi, h, ti);
    let g = bi * nh + h;
    let n = ti + 1;
    let x = row(row(pre, g, t * t), ti, t);
    let y = row(row(att, g, t * t), ti, t);
    let at = score_place(bi, h, ti, 0, t, nh);
    lemma_score_at(pre, b, t, nh, bi, h, ti, 0);
    lemma_score_at(pre, b, t, nh, bi, h, ti, t - 1);
    lemma_score_at(att, b, t, nh, bi, h, ti, t - 1);
    assert(x =~= pre.subrange(at, at + t)) by {
        assert forall|tj: int| 0 <= tj < t implies x[tj] == pre[at + tj] by {
            lemma_score_at(pre, b, t, nh, bi, h, ti, tj);
        }
    }
    assert(y =~= att.subrange(at, at + t)) by {
        assert forall|tj: int| 0 <= tj < t implies y[tj] == att[at + tj] by {
            lemma_score_at(att, b, t, nh, bi, h, ti, tj);
        }
    }
    assert forall|i: int| 0 <= i < n implies !call_ensures(T::neg_infinity, (), #[trigger] x[i]) by {
        assert(evals(lit(by.scores[i]).times(head_scale(c / nh)), x[i]));
        let p = parts(Binary::Times, lit(by.scores[i]), head_scale(c / nh), x[i]);
        reveal(exact_limits);
    }
    lemma_greatest(r, x, n, by.top);
    assert forall|i: int| 0 <= i < n implies (r.val)(#[trigger] by.powers[i]) == (r.exp)(
        (r.val)(x[i]) - (r.val)(by.top),
    ) by {
        let d = lit(x[i]).minus(lit(by.top));
        let limit = Expr::Const(Named::MaxValue);
        assert(evals(d.exp().min(limit), by.powers[i]));
        let (e, m) = parts(Binary::Min, d.exp(), limit, by.powers[i]);
        reveal_with_fuel(worth, 4);
        reveal_with_fuel(sound, 4);
        lemma_worth(r, d.exp(), e);
        assert(1real <= (r.val)(m) && (by.powers[i] == e || by.powers[i] == m) && (r.val)(
            by.powers[i],
        ) <= (r.val)(e)) by {
            reveal(evals);
            reveal(exact_limits);
        }
        assert(exponential(r.exp)) by {
            reveal(exact_curves);
        }
        let z = (r.val)(x[i]) - (r.val)(by.top);
        assert(z <= 0real);
        assert((r.exp)(z) <= (r.exp)(0real));
    }
    assert forall|i: int| 0 <= i < n implies evals(
        lit(by.powers[i]).times(lit(by.inv)),
        #[trigger] y[i],
    ) by {}
    lemma_shares(r, x, by.top, by.powers, by.all, by.inv, y, n);
    assert forall|tj: int| ti < tj < t implies (r.val)(
        att[#[trigger] score_place(bi, h, ti, tj, t, nh)],
    ) == 0real by {
        lemma_score_at(att, b, t, nh, bi, h, ti, tj);
        assert(evals(nought(), y[tj]));
        lemma_worth(r, nought(), y[tj]);
    }
}

/// The output of a head is the sum of the values of the places up to its own, each times the
/// attention that is paid to it.
pub proof fn lemma_attention_outputs<T: Scalar>(
    r: Reading<T>,
    out0: Seq<T>,
    out: Seq<T>,
    pre0: Seq<T>,
    pre: Seq<T>,
    att0: Seq<T>,
    att: Seq<T>,
    inp: Seq<T>,
    b: int,
    t: int,
    c: int,
    nh: int,
    bi: int,
    h: int,
    ti: int,
    k: int,
)
    requires
        exact_products(r),
        heads_attend(out0, out, pre0, pre, att0, att, inp, b * nh, b, t, c, nh),
        0 <= bi < b,
        0 <= h < nh,
        0 <= ti < t <= i32::MAX,
        0 <= k < c / nh <= i32::MAX,
        0 <= c,
        (b * nh) * (t * t) <= att.len(),
        b * (t * (3 * c)) <= inp.len(),
        b * (t * c) <= out.len(),
    ensures
        (r.val)(out[output_channel(bi, ti, h, k, t, c, nh)]) == rsum(
            |tj: int|
                (r.val)(att[score_place(bi, h, ti, tj, t, nh)]) * (r.val)(
                    inp[channel(bi, tj, 2, h, k, t, c, nh)],
                ),
            ti + 1,
        ),
{
    let by = lemma_attends_at(pre0, out0, out, pre, att0, att, inp, b, t, c, nh, bi, h, ti);
    let g = bi * nh + h;
    let hs = c / nh;
    let n = ti + 1;
    lemma_head_of_pair(bi, h, nh);
    lemma_head_bounds(h, nh, c);
    let v = head_part(inp, g, 2, t, c, nh);
    lemma_head_part_at(inp, b, t, c, nh, bi, h, 2, ti, k);
    lemma_row_bound(ti, hs, hs, t);
    let y = row(row(att, g, t * t), ti, t);
    lemma_score_at(att, b, t, nh, bi, h, ti, 0);
    let weights = y.subrange(0, n);
    let values = v.subrange(0, n * hs);
    let o = row(head_output(out, g, t, c, nh), ti, hs);
    lemma_column_at(out, b, t, c, bi, ti, h * hs, hs, k);
    assert(1 * n == n);
    lemma_product(r, Transpose::Plain, Transpose::Plain, 1, hs, n, weights, values, o, 0, k);
    assert(0 * hs + k == k) by (nonlinear_arith);
    assert(o[k] == out[output_channel(bi, ti, h, k, t, c, nh)]);
    let f = |l: int|
        (r.val)(entry(Transpose::Plain, weights, n, 0, l)) * (r.val)(
            entry(Transpose::Plain, values, hs, l, k),
        );
    let e = |tj: int|
        (r.val)(att[score_place(bi, h, ti, tj, t, nh)]) * (r.val)(
            inp[channel(bi, tj, 2, h, k, t, c, nh)],
        );
    assert forall|l: int| 0 <= l < n implies #[trigger] f(l) == e(l) by {
        lemma_score_at(att, b, t, nh, bi, h, ti, l);
        lemma_head_part_at(inp, b, t, c, nh, bi, h, 2, l, k);
        lemma_row_bound(l, k + 1, hs, n);
        assert(weights[0 * n + l] == y[l]);
        assert(values[l * hs + k] == v[l * hs + k]);
    }
    lemma_rsum_same(f, e, n);
}

/// Every query of `b` sequences of `t` places meets the keys up to its own place: the scores are
/// the products of queries and keys over the root of the number of channels of a head, the
/// attention is shared out in proportion to their exponentials, and the output is made of the
/// values that it is paid to.
pub open spec fn pays_attention<T>(
    r: Reading<T>,
    out: Seq<T>,
    pre: Seq<T>,
    att: Seq<T>,
    inp: Seq<T>,
    b: int,
    t: int,
    c: int,
    nh: int,
) -> bool {
    &&& forall|bi: int, h: int, ti: int, tj: int|
        0 <= bi < b && 0 <= h < nh && 0 <= tj <= ti < t && 0 < c / nh ==> {
            let x = (r.val)(pre[#[trigger] score_place(bi, h, ti, tj, t, nh)]);
            let product = affinity(r, inp, bi, h, ti, tj, t, c, nh);
            x * x * ((c / nh) as real) == product * product && 0real <= x * product
        }
    &&& forall|bi: int, h: int, ti: int|
        0 <= bi < b && 0 <= h < nh && 0 <= ti < t ==> {
            let at = #[trigger] score_place(bi, h, ti, 0, t, nh);
            shares(r, pre.subrange(at, at + t), att.subrange(at, at + t), ti + 1)
        }
    &&& forall|bi: int, h: int, ti: int, tj: int|
        0 <= bi < b && 0 <= h < nh && 0 <= ti < tj < t ==> (r.val)(
            att[#[trigger] score_place(bi, h, ti, tj, t, nh)],
        ) == 0real
    &&& forall|bi: int, h: int, ti: int, k: int|
        0 <= bi < b && 0 <= h < nh && 0 <= ti < t && 0 <= k < c / nh ==> (r.val)(
            out[#[trigger] output_channel(bi, ti, h, k, t, c, nh)],
        ) == rsum(
            |tj: int|
                (r.val)(att[score_place(bi, h, ti, tj, t, nh)]) * (r.val)(
                    inp[channel(bi, tj, 2, h, k, t, c, nh)],
                ),
            ti + 1,
        )
}

/// Attention is paid by every query of every head of every sequence.
pub proof fn lemma_pays_attention<T: Scalar>(
    r: Reading<T>,
    out0: Seq<T>,
    out: Seq<T>,
    pre0: Seq<T>,
    pre: Seq<T>,
    att0: Seq<T>,
    att: Seq<T>,
    inp: Seq<T>,
    b: int,
    t: int,
    c: int,
    nh: int,
)
    requires
        exact(r),
        exact_roots(r),
        exact_curves(r),
        exact_limits(r),
        exact_products(r),
        heads_attend(out0, out, pre0, pre, att0, att, inp, b * nh, b, t, c, nh),
        0 < nh,
        b > 0 ==> t <= i32::MAX,
        0 <= c,
        c / nh <= i32::MAX,
        (b * nh) * (t * t) <= pre.len(),
        (b * nh) * (t * t) <= att.len(),
        b * (t * (3 * c)) <= inp.len(),
        b * (t * c) <= out.len(),
    ensures
        pays_attention(r, out, pre, att, inp, b, t, c, nh),
{
    assert forall|bi: int, h: int, ti: int, tj: int|
        0 <= bi < b && 0 <= h < nh && 0 <= tj <= ti < t && 0 < c / nh implies {
        let x = (r.val)(pre[#[trigger] score_place(bi, h, ti, tj, t, nh)]);
        let product = affinity(r, inp, bi, h, ti, tj, t, c, nh);
        x * x * ((c / nh) as real) == product * product && 0real <= x * product
    } by {
        lemma_scores(r, out0, out, pre0, pre, att0, att, inp, b, t, c, nh, bi, h, ti, tj);
    }
    assert forall|bi: int, h: int, ti: int|
        0 <= bi < b && 0 <= h < nh && 0 <= ti < t implies {
        let at = #[trigger] score_place(bi, h, ti, 0, t, nh);
        shares(r, pre.subrange(at, at + t), att.subrange(at, at + t), ti + 1)
    } by {
        lemma_attention_shares(r, out0, out, pre0, pre, att0, att, inp, b, t, c, nh, bi, h, ti);
    }
    assert forall|bi: int, h: int, ti: int, tj: int|
        0 <= bi < b && 0 <= h < nh && 0 <= ti < tj < t implies (r.val)(
        att[#[trigger] score_place(bi, h, ti, tj, t, nh)],
    ) == 0real by {
        lemma_attention_shares(r, out0, out, pre0, pre, att0, att, inp, b, t, c, nh, bi, h, ti);
    }
    assert forall|bi: int, h: int, ti: int, k: int|
        0 <= bi < b && 0 <= h < nh && 0 <= ti < t && 0 <= k < c / nh implies (r.val)(
        out[#[trigger] output_channel(bi, ti, h, k, t, c, nh)],
    ) == rsum(
        |tj: int|
            (r.val)(att[score_place(bi, h, ti, tj, t, nh)]) * (r.val)(
                inp[channel(bi, tj, 2, h, k, t, c, nh)],
            ),
        ti + 1,
    ) by {
        lemma_attention_outputs(r, out0, out, pre0, pre, att0, att, inp, b, t, c, nh, bi, h, ti, k);
    }
}

/// The exponentials that attention is shared out by are those of the distances of the scores from
/// the largest of them: none is above one, and one is one.
pub proof fn lemma_attention_of_distances<T: Scalar>(
    r: Reading<T>,
    q: Seq<T>,
    k: Seq<T>,
    v: Seq<T>,
    pre0: Seq<T>,
    pre: Seq<T>,
    att: Seq<T>,
    out: Seq<T>,
    ti: int,
    t: int,
    hs: int,
    by: Attention<T>,
)
    requires
        exact(r),
        exact_curves(r),
        exact_limits(r),
        attends_by(q, k, v, pre0, pre, att, out, ti, t, hs, by),
        0 <= ti < t,
    ensures
        forall|i: int| 0 <= i <= ti ==> 0real < (r.val)(#[trigger] by.powers[i]) <= 1real,
        exists|i: int| 0 <= i <= ti && (r.val)(#[trigger] by.powers[i]) == 1real,
        forall|i: int|
            0 <= i <= ti ==> (r.val)(#[trigger] by.powers[i]) == (r.exp)(
                (r.val)(pre[i]) - (r.val)(by.top),
            ),
{
    let n = ti + 1;
    assert forall|i: int| 0 <= i < n implies !call_ensures(
        T::neg_infinity,
        (),
        #[trigger] pre[i],
    ) by {
        assert(evals(lit(by.scores[i]).times(head_scale(hs)), pre[i]));
        let p = parts(Binary::Times, lit(by.scores[i]), head_scale(hs), pre[i]);
        reveal(exact_limits);
    }
    lemma_greatest(r, pre, n, by.top);
    assert(exponential(r.exp)) by {
        reveal(exact_curves);
    }
    assert forall|i: int| 0 <= i < n implies (r.val)(#[trigger] by.powers[i]) == (r.exp)(
        (r.val)(pre[i]) - (r.val)(by.top),
    ) && (r.val)(by.powers[i]) <= 1real by {
        let d = lit(pre[i]).minus(lit(by.top));
        let limit = Expr::Const(Named::MaxValue);
        assert(evals(d.exp().min(limit), by.powers[i]));
        let (e, m) = parts(Binary::Min, d.exp(), limit, by.powers[i]);
        reveal_with_fuel(worth, 4);
        reveal_with_fuel(sound, 4);
        lemma_worth(r, d.exp(), e);
        assert(1real <= (r.val)(m) && (by.powers[i] == e || by.powers[i] == m) && (r.val)(
            by.powers[i],
        ) <= (r.val)(e)) by {
            reveal(evals);
            reveal(exact_limits);
        }
        let z = (r.val)(pre[i]) - (r.val)(by.top);
        assert(z <= 0real);
        assert((r.exp)(z) <= (r.exp)(0real));
    }
    let i = choose|i: int| 0 <= i < n && #[trigger] pre[i] == by.top;
    assert((r.val)(pre[i]) - (r.val)(by.top) == 0real);
    assert((r.val)(by.powers[i]) == 1real);
}

/// Attention leaves alone what it has no say in: the scores of later places, the channels that
/// belong to no head, and all that lies behind the batch.
pub proof fn lemma_attention_leaves_alone<T: Scalar>(
    out0: Seq<T>,
    out: Seq<T>,
    pre0: Seq<T>,
    pre: Seq<T>,
    att0: Seq<T>,
    att: Seq<T>,
    inp: Seq<T>,
    b: int,
    t: int,
    c: int,
    nh: int,
)
    requires
        heads_attend(out0, out, pre0, pre, att0, att, inp, b * nh, b, t, c, nh),
        0 < nh,
        0 <= c,
        (b * nh) * (t * t) <= pre.len(),
        b * (t * c) <= out.len(),
    ensures
        out.len() == out0.len(),
        pre.len() == pre0.len(),
        att.len() == att0.len(),
        forall|bi: int, h: int, ti: int, tj: int|
            0 <= bi < b && 0 <= h < nh && 0 <= ti < tj < t ==> pre[#[trigger] score_place(
                bi,
                h,
                ti,
                tj,
                t,
                nh,
            )] == pre0[score_place(bi, h, ti, tj, t, nh)],
        forall|bi: int, ti: int, k: int|
            0 <= bi < b && 0 <= ti < t && nh * (c / nh) <= k < c ==> out[#[trigger] output_channel(
                bi,
                ti,
                0,
                k,
                t,
                c,
                nh,
            )] == out0[output_channel(bi, ti, 0, k, t, c, nh)],
        forall|j: int| b * (t * c) <= j < out.len() ==> #[trigger] out[j] == out0[j],
        forall|j: int| (b * nh) * (t * t) <= j < pre.len() ==> #[trigger] pre[j] == pre0[j],
        forall|j: int| (b * nh) * (t * t) <= j < att.len() ==> #[trigger] att[j] == att0[j],
{
    assert forall|bi: int, h: int, ti: int, tj: int|
        0 <= bi < b && 0 <= h < nh && 0 <= ti < tj < t implies pre[#[trigger] score_place(
        bi,
        h,
        ti,
        tj,
        t,
        nh,
    )] == pre0[score_place(bi, h, ti, tj, t, nh)] by {
        let by = lemma_attends_at(pre0, out0, out, pre, att0, att, inp, b, t, c, nh, bi, h, ti);
        lemma_score_at(pre, b, t, nh, bi, h, ti, tj);
        lemma_score_at(pre0, b, t, nh, bi, h, ti, tj);
        assert(row(row(pre, bi * nh + h, t * t), ti, t)[tj] == row(
            row(pre0, bi * nh + h, t * t),
            ti,
            t,
        )[tj]);
    }
    assert forall|bi: int, ti: int, k: int|
        0 <= bi < b && 0 <= ti < t && nh * (c / nh) <= k < c implies out[#[trigger] output_channel(
        bi,
        ti,
        0,
        k,
        t,
        c,
        nh,
    )] == out0[output_channel(bi, ti, 0, k, t, c, nh)] by {
        lemma_head_bounds(0, nh, c);
        let at = nh * (c / nh);
        let w = c - at;
        lemma_column_at(out, b, t, c, bi, ti, at, w, k - at);
        lemma_column_at(out0, b, t, c, bi, ti, at, w, k - at);
        assert(no_head_output(out, bi, t, c, nh) == no_head_output(out0, bi, t, c, nh));
        assert(0 * (c / nh) == 0) by (nonlinear_arith);
    }
}

} // verus!
