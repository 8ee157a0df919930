//! What two runs of attention, and of its gradients, have in common.

use vstd::prelude::*;

use crate::attention::{
    attends, attends_by, greatest, head_output, head_part, heads_attend,
    lemma_attention_causal, lemma_head_bounds, no_head_output, Attention,
};
use crate::attention_backward::{
    attention_carried_back, attention_carried_back_by, head_carried_back, head_gradients,
    lemma_head_of_pair, merged, no_head_part, sequence_alone, sequence_carried_back, Gradients,
    HeadGradients,
};
use crate::buffer::{cell, columns, lemma_columns, lemma_row_bound, resized, row, window};
use crate::determinism::{
    functional, lemma_in_row, lemma_one_inverse, lemma_one_product, lemma_one_value_each,
    lemma_resized_once, lemma_rows_determine,
};
use crate::scalar::{combines, evals, lemma_lit, lit, nought, Binary, Scalar, Transpose};

verus! {

/// The largest of the first elements depends on nothing else.
proof fn lemma_greatest_agrees<T>(x: Seq<T>, y: Seq<T>, n: int)
    requires
        forall|i: int| 0 <= i < n ==> x[i] == y[i],
    ensures
        greatest(x, n) == greatest(y, n),
    decreases n,
{
    if n > 0 {
        assert(x[n - 1] == y[n - 1]);
        lemma_greatest_agrees(x, y, n - 1);
    }
}

/// A query attends in one way.
pub proof fn lemma_attends_once<T: Scalar>(
    q: Seq<T>,
    k: Seq<T>,
    v: Seq<T>,
    pre01: Seq<T>,
    pre1: Seq<T>,
    att1: Seq<T>,
    out1: Seq<T>,
    pre02: Seq<T>,
    pre2: Seq<T>,
    att2: Seq<T>,
    out2: Seq<T>,
    ti: int,
    t: int,
    hs: int,
)
    requires
        functional::<T>(),
        0 <= ti < t,
        attends(q, k, v, pre01, pre1, att1, out1, ti, t, hs),
        attends(q, k, v, pre02, pre2, att2, out2, ti, t, hs),
    ensures
        att1 == att2,
        out1 == out2,
        forall|i: int| 0 <= i <= ti ==> #[trigger] pre1[i] == pre2[i],
{
    let n = ti + 1;
    let by1 = choose|by: Attention<T>| attends_by(q, k, v, pre01, pre1, att1, out1, ti, t, hs, by);
    let by2 = choose|by: Attention<T>| attends_by(q, k, v, pre02, pre2, att2, out2, ti, t, hs, by);
    lemma_one_value_each::<T>();
    lemma_one_product(
        Transpose::Plain,
        Transpose::Plain,
        n,
        1,
        hs,
        k.subrange(0, n * hs),
        row(q, ti, hs),
        by1.scores,
        by2.scores,
    );
    assert forall|i: int| 0 <= i <= ti implies #[trigger] pre1[i] == pre2[i] by {}
    lemma_greatest_agrees(pre1, pre2, n);
    assert(by1.top == by2.top);
    assert(by1.powers =~= by2.powers);
    assert(by1.all == by2.all);
    lemma_one_inverse(by1.all, by1.inv, by2.inv);
    assert(att1 =~= att2);
    lemma_one_product(
        Transpose::Plain,
        Transpose::Plain,
        1,
        hs,
        n,
        att1.subrange(0, n),
        v.subrange(0, n * hs),
        out1,
        out2,
    );
}

/// Two inputs agree on sequence `bi` up to place `ti`.
pub open spec fn sequence_agrees<T>(
    inp1: Seq<T>,
    inp2: Seq<T>,
    bi: int,
    ti: int,
    t: int,
    c: int,
) -> bool {
    forall|r: int|
        0 <= r <= ti ==> #[trigger] row(row(inp1, bi, t * (3 * c)), r, 3 * c) == row(
            row(inp2, bi, t * (3 * c)),
            r,
            3 * c,
        )
}

/// A head attends in the same way at place `ti` of sequence `bi` in two runs whose inputs agree on
/// that sequence up to that place.
pub proof fn lemma_head_agrees<T: Scalar>(
    out01: Seq<T>,
    out1: Seq<T>,
    pre01: Seq<T>,
    pre1: Seq<T>,
    att01: Seq<T>,
    att1: Seq<T>,
    inp1: Seq<T>,
    out02: Seq<T>,
    out2: Seq<T>,
    pre02: Seq<T>,
    pre2: Seq<T>,
    att02: Seq<T>,
    att2: Seq<T>,
    inp2: Seq<T>,
    b: int,
    t: int,
    c: int,
    nh: int,
    bi: int,
    h: int,
    ti: int,
)
    requires
        functional::<T>(),
        heads_attend(out01, out1, pre01, pre1, att01, att1, inp1, b * nh, b, t, c, nh),
        heads_attend(out02, out2, pre02, pre2, att02, att2, inp2, b * nh, b, t, c, nh),
        0 <= bi < b,
        0 <= h < nh,
        0 <= ti < t,
        0 <= c,
        b * (t * (3 * c)) <= inp1.len(),
        b * (t * (3 * c)) <= inp2.len(),
        sequence_agrees(inp1, inp2, bi, ti, t, c),
    ensures
        row(row(att1, bi * nh + h, t * t), ti, t) == row(row(att2, bi * nh + h, t * t), ti, t),
        forall|i: int|
            0 <= i <= ti ==> #[trigger] row(row(pre1, bi * nh + h, t * t), ti, t)[i] == row(
                row(pre2, bi * nh + h, t * t),
                ti,
                t,
            )[i],
        row(head_output(out1, bi * nh + h, t, c, nh), ti, c / nh) == row(
            head_output(out2, bi * nh + h, t, c, nh),
            ti,
            c / nh,
        ),
{
    let g = bi * nh + h;
    lemma_head_of_pair(bi, h, nh);
    lemma_row_bound(bi, h, nh, b);
    let w = t * (3 * c);
    assert(0 <= w) by (nonlinear_arith)
        requires
            w == t * (3 * c),
            0 < t,
            0 <= c,
    ;
    lemma_row_bound(bi, w, w, b);
    let hs = c / nh;
    assert(row(pre1, g, t * t) == row(pre1, g, t * t));
    assert(row(pre2, g, t * t) == row(pre2, g, t * t));
    assert(attends(
        head_part(inp1, g, 0, t, c, nh),
        head_part(inp1, g, 1, t, c, nh),
        head_part(inp1, g, 2, t, c, nh),
        row(row(pre01, g, t * t), ti, t),
        row(row(pre1, g, t * t), ti, t),
        row(row(att1, g, t * t), ti, t),
        row(head_output(out1, g, t, c, nh), ti, hs),
        ti,
        t,
        hs,
    ));
    assert(attends(
        head_part(inp2, g, 0, t, c, nh),
        head_part(inp2, g, 1, t, c, nh),
        head_part(inp2, g, 2, t, c, nh),
        row(row(pre02, g, t * t), ti, t),
        row(row(pre2, g, t * t), ti, t),
        row(row(att2, g, t * t), ti, t),
        row(head_output(out2, g, t, c, nh), ti, hs),
        ti,
        t,
        hs,
    ));
    lemma_attention_causal(
        inp1,
        inp2,
        g,
        ti,
        t,
        c,
        nh,
        row(row(pre01, g, t * t), ti, t),
        row(row(pre1, g, t * t), ti, t),
        row(row(att1, g, t * t), ti, t),
        row(head_output(out1, g, t, c, nh), ti, hs),
    );
    lemma_attends_once(
        head_part(inp2, g, 0, t, c, nh),
        head_part(inp2, g, 1, t, c, nh),
        head_part(inp2, g, 2, t, c, nh),
        row(row(pre01, g, t * t), ti, t),
        row(row(pre1, g, t * t), ti, t),
        row(row(att1, g, t * t), ti, t),
        row(head_output(out1, g, t, c, nh), ti, hs),
        row(row(pre02, g, t * t), ti, t),
        row(row(pre2, g, t * t), ti, t),
        row(row(att2, g, t * t), ti, t),
        row(head_output(out2, g, t, c, nh), ti, hs),
        ti,
        t,
        hs,
    );
}

/// Blocks of columns that agree on a row agree on its elements.
pub proof fn lemma_columns_element<A>(
    x: Seq<A>,
    y: Seq<A>,
    at: int,
    w: int,
    stride: int,
    n: int,
    r: int,
    p: int,
)
    requires
        0 <= at <= p < at + w <= stride,
        n * stride <= x.len(),
        n * stride <= y.len(),
        0 <= r < n,
        row(columns(x, at, w, stride, n), r, w) == row(columns(y, at, w, stride, n), r, w),
    ensures
        x[r * stride + p] == y[r * stride + p],
{
    lemma_columns(x, at, w, stride, n);
    lemma_columns(y, at, w, stride, n);
    lemma_row_bound(r, stride, stride, n);
    let u = window(x, r * stride + at, w);
    let v = window(y, r * stride + at, w);
    assert(u == v);
    assert(u[p - at] == x[r * stride + p]);
    assert(v[p - at] == y[r * stride + p]);
}

/// The row of a place is a row of its sequence.
pub proof fn lemma_place_row<A>(s: Seq<A>, b: int, t: int, c: int, bi: int, ti: int)
    requires
        0 <= bi < b,
        0 <= ti < t,
        0 <= c,
        b * (t * c) <= s.len(),
    ensures
        0 <= bi * t + ti < b * t,
        row(s, bi * t + ti, c) == row(row(s, bi, t * c), ti, c),
        row(s, bi, t * c).len() == t * c,
        row(s, bi * t + ti, c).len() == c,
        0 <= bi * (t * c),
        ti * c + c <= t * c,
        bi * (t * c) + t * c <= s.len(),
{
    let w = t * c;
    lemma_row_bound(bi, ti, t, b);
    lemma_row_bound(ti, c, c, t);
    assert(0 <= w);
    lemma_row_bound(bi, w, w, b);
    assert((bi * t + ti) * c == bi * (t * c) + ti * c) by (nonlinear_arith);
    assert(row(s, bi * t + ti, c) =~= row(row(s, bi, t * c), ti, c));
}

/// Attention is causal, and keeps sequences apart: two runs whose inputs agree on sequence `bi` up
/// to place `ti` leave the same attention and the same output there. Columns that belong to no
/// head are left as they were, so where there are any they must have been the same.
pub proof fn lemma_attention_agrees<T: Scalar>(
    out01: Seq<T>,
    out1: Seq<T>,
    pre01: Seq<T>,
    pre1: Seq<T>,
    att01: Seq<T>,
    att1: Seq<T>,
    inp1: Seq<T>,
    out02: Seq<T>,
    out2: Seq<T>,
    pre02: Seq<T>,
    pre2: Seq<T>,
    att02: Seq<T>,
    att2: Seq<T>,
    inp2: Seq<T>,
    b: int,
    t: int,
    c: int,
    nh: int,
    bi: int,
    ti: int,
)
    requires
        functional::<T>(),
        heads_attend(out01, out1, pre01, pre1, att01, att1, inp1, b * nh, b, t, c, nh),
        heads_attend(out02, out2, pre02, pre2, att02, att2, inp2, b * nh, b, t, c, nh),
        0 <= bi < b,
        0 < nh,
        0 <= ti < t,
        0 <= c,
        b * (t * (3 * c)) <= inp1.len(),
        b * (t * (3 * c)) <= inp2.len(),
        b * (t * c) <= out01.len(),
        b * (t * c) <= out02.len(),
        sequence_agrees(inp1, inp2, bi, ti, t, c),
        c % nh == 0 || row(out01, bi * t + ti, c) == row(out02, bi * t + ti, c),
    ensures
        row(out1, bi * t + ti, c) == row(out2, bi * t + ti, c),
        forall|h: int|
            0 <= h < nh ==> #[trigger] row(row(att1, cell(bi, nh, h), t * t), ti, t) == row(
                row(att2, cell(bi, nh, h), t * t),
                ti,
                t,
            ),
{
    let hs = c / nh;
    let x = row(out1, bi, t * c);
    let y = row(out2, bi, t * c);
    let x0 = row(out01, bi, t * c);
    let y0 = row(out02, bi, t * c);
    lemma_place_row(out1, b, t, c, bi, ti);
    lemma_place_row(out2, b, t, c, bi, ti);
    lemma_place_row(out01, b, t, c, bi, ti);
    lemma_place_row(out02, b, t, c, bi, ti);
    lemma_head_bounds(0, nh, c);
    assert forall|h: int| 0 <= h < nh implies #[trigger] row(
        row(att1, cell(bi, nh, h), t * t),
        ti,
        t,
    ) == row(row(att2, cell(bi, nh, h), t * t), ti, t) by {
        lemma_head_agrees(
            out01, out1, pre01, pre1, att01, att1, inp1, out02, out2, pre02, pre2, att02, att2,
            inp2, b, t, c, nh, bi, h, ti,
        );
    }
    assert forall|p: int| 0 <= p < c implies row(x, ti, c)[p] == row(y, ti, c)[p] by {
        assert(row(x, ti, c)[p] == x[ti * c + p]);
        assert(row(y, ti, c)[p] == y[ti * c + p]);
        if p < nh * hs {
            lemma_in_row(p, nh, hs);
            let h = p / hs;
            lemma_head_agrees(
                out01, out1, pre01, pre1, att01, att1, inp1, out02, out2, pre02, pre2, att02,
                att2, inp2, b, t, c, nh, bi, h, ti,
            );
            lemma_head_of_pair(bi, h, nh);
            lemma_head_bounds(h, nh, c);
            lemma_columns_element(x, y, h * hs, hs, c, t, ti, p);
        } else {
            assert(c % nh != 0) by (nonlinear_arith)
                requires
                    0 < nh,
                    0 <= p < c,
                    nh * (c / nh) <= p,
            ;
            let w = c - nh * hs;
            assert(no_head_output(out1, bi, t, c, nh) == no_head_output(out01, bi, t, c, nh));
            assert(no_head_output(out2, bi, t, c, nh) == no_head_output(out02, bi, t, c, nh));
            lemma_columns_element(x, x0, nh * hs, w, c, t, ti, p);
            lemma_columns_element(y, y0, nh * hs, w, c, t, ti, p);
            assert(row(x0, ti, c)[p] == x0[ti * c + p]);
            assert(row(y0, ti, c)[p] == y0[ti * c + p]);
        }
    }
    assert(row(x, ti, c) =~= row(y, ti, c));
}

/// The gradients of a head come out in one way.
proof fn lemma_head_gradients_once<T: Scalar>(
    d0: HeadGradients<T>,
    x: HeadGradients<T>,
    y: HeadGradients<T>,
    dout: Seq<T>,
    q: Seq<T>,
    k: Seq<T>,
    v: Seq<T>,
    att: Seq<T>,
    t: int,
    hs: int,
)
    requires
        functional::<T>(),
        0 <= t,
        0 <= hs,
        head_carried_back(d0, x, dout, q, k, v, att, t, t, hs),
        head_carried_back(d0, y, dout, q, k, v, att, t, t, hs),
    ensures
        x.dq == y.dq,
        x.dk == y.dk,
        x.dv == y.dv,
        x.datt == y.datt,
        x.dpre == y.dpre,
{
    lemma_one_value_each::<T>();
    assert forall|ti: int| 0 <= ti < t implies #[trigger] row(x.datt, ti, t) == row(y.datt, ti, t)
        && row(x.dpre, ti, t) == row(y.dpre, ti, t) by {
        let a = row(x.dpre, ti, t);
        let b = row(y.dpre, ti, t);
        assert(row(x.datt, ti, t) =~= row(y.datt, ti, t));
        assert(a =~= b);
    }
    lemma_rows_determine(x.datt, y.datt, t, t);
    assert forall|ti: int| 0 <= ti < t implies #[trigger] row(x.dpre, ti, t) == row(
        y.dpre,
        ti,
        t,
    ) by {
        assert(row(x.datt, ti, t) == row(y.datt, ti, t));
    }
    lemma_rows_determine(x.dpre, y.dpre, t, t);
    assert forall|ti: int| 0 <= ti < t implies #[trigger] row(x.dq, ti, hs) == row(
        y.dq,
        ti,
        hs,
    ) by {
        let b = row(y.dq, ti, hs);
        assert(row(x.dq, ti, hs) =~= b);
    }
    lemma_rows_determine(x.dq, y.dq, t, hs);
    assert forall|ti: int| 0 <= ti < t implies #[trigger] row(x.dk, ti, hs) == row(
        y.dk,
        ti,
        hs,
    ) by {
        let b = row(y.dk, ti, hs);
        assert(row(x.dk, ti, hs) =~= b);
    }
    lemma_rows_determine(x.dk, y.dk, t, hs);
    assert forall|ti: int| 0 <= ti < t implies #[trigger] row(x.dv, ti, hs) == row(
        y.dv,
        ti,
        hs,
    ) by {
        let b = row(y.dv, ti, hs);
        assert(row(x.dv, ti, hs) =~= b);
    }
    lemma_rows_determine(x.dv, y.dv, t, hs);
}

/// The gradients of the inputs of a sequence are made up of those of its heads and of what belongs
/// to none.
proof fn lemma_sequence_determined<T>(
    x: Seq<T>,
    y: Seq<T>,
    bi: int,
    b: int,
    t: int,
    c: int,
    nh: int,
    j: int,
)
    requires
        0 <= bi < b,
        0 <= t,
        0 <= c,
        0 < nh,
        x.len() == y.len(),
        b * (t * (3 * c)) <= x.len(),
        bi * (t * (3 * c)) <= j < (bi + 1) * (t * (3 * c)),
        forall|h: int, part: int|
            0 <= h < nh && 0 <= part < 3 ==> #[trigger] head_part(
                x,
                cell(bi, nh, h),
                part,
                t,
                c,
                nh,
            ) == head_part(y, cell(bi, nh, h), part, t, c, nh),
        forall|part: int|
            0 <= part < 3 ==> #[trigger] no_head_part(x, bi, part, t, c, nh) == no_head_part(
                y,
                bi,
                part,
                t,
                c,
                nh,
            ),
    ensures
        x[j] == y[j],
{
    let hs = c / nh;
    let w = t * (3 * c);
    assert(0 <= w) by (nonlinear_arith)
        requires
            w == t * (3 * c),
            0 <= t,
            0 <= c,
    ;
    lemma_row_bound(bi, w, w, b);
    let u = row(x, bi, w);
    let v = row(y, bi, w);
    let i = j - bi * w;
    lemma_in_row(i, t, 3 * c);
    let ti = i / (3 * c);
    let p = i % (3 * c);
    let part = if p < c {
        0int
    } else if p < 2 * c {
        1int
    } else {
        2int
    };
    assert(0 * c == 0 && 1 * c == c);
    let m = p - part * c;
    assert(0 <= m < c);
    lemma_head_bounds(0, nh, c);
    if m < nh * hs {
        lemma_in_row(m, nh, hs);
        let h = m / hs;
        lemma_head_of_pair(bi, h, nh);
        lemma_head_bounds(h, nh, c);
        assert(head_part(x, cell(bi, nh, h), part, t, c, nh) == head_part(
            y,
            cell(bi, nh, h),
            part,
            t,
            c,
            nh,
        ));
        lemma_columns_element(u, v, part * c + h * hs, hs, 3 * c, t, ti, p);
    } else {
        assert(no_head_part(x, bi, part, t, c, nh) == no_head_part(y, bi, part, t, c, nh));
        lemma_columns_element(u, v, part * c + nh * hs, c - nh * hs, 3 * c, t, ti, p);
    }
    assert(u[i] == x[j]);
    assert(v[i] == y[j]);
}

/// A sequence carries its gradients back in one way.
pub proof fn lemma_sequence_once<T: Scalar>(
    x: Gradients<T>,
    y: Gradients<T>,
    dout: Seq<T>,
    inp: Seq<T>,
    att: Seq<T>,
    bi: int,
    b: int,
    t: int,
    c: int,
    nh: int,
)
    requires
        functional::<T>(),
        0 <= bi < b,
        0 <= t,
        0 <= c,
        0 < nh,
        x.dinp.len() == y.dinp.len(),
        x.datt.len() == y.datt.len(),
        x.dpre.len() == y.dpre.len(),
        b * (t * (3 * c)) <= x.dinp.len(),
        (b * nh) * (t * t) <= x.datt.len(),
        (b * nh) * (t * t) <= x.dpre.len(),
        sequence_alone(x, dout, inp, att, bi, t, c, nh),
        sequence_alone(y, dout, inp, att, bi, t, c, nh),
    ensures
        x == y,
{
    let d0 = choose|d0: Gradients<T>|
        {
            &&& resized(Seq::empty(), d0.dinp, x.dinp.len() as int)
            &&& resized(Seq::empty(), d0.datt, x.datt.len() as int)
            &&& resized(Seq::empty(), d0.dpre, x.dpre.len() as int)
            &&& #[trigger] sequence_carried_back(d0, x, dout, inp, att, bi, nh, t, c, nh)
        };
    let e0 = choose|d0: Gradients<T>|
        {
            &&& resized(Seq::empty(), d0.dinp, y.dinp.len() as int)
            &&& resized(Seq::empty(), d0.datt, y.datt.len() as int)
            &&& resized(Seq::empty(), d0.dpre, y.dpre.len() as int)
            &&& #[trigger] sequence_carried_back(d0, y, dout, inp, att, bi, nh, t, c, nh)
        };
    lemma_resized_once(Seq::empty(), d0.dinp, e0.dinp, x.dinp.len() as int);
    lemma_resized_once(Seq::empty(), d0.datt, e0.datt, x.datt.len() as int);
    lemma_resized_once(Seq::empty(), d0.dpre, e0.dpre, x.dpre.len() as int);
    assert(d0 == e0);
    let hs = c / nh;
    lemma_head_bounds(0, nh, c);
    lemma_row_bound(bi, nh, nh, b);
    assert forall|h: int| 0 <= h < nh implies {
        let g = #[trigger] cell(bi, nh, h);
        let p = head_gradients(x, g, t, c, nh);
        let q = head_gradients(y, g, t, c, nh);
        p.dq == q.dq && p.dk == q.dk && p.dv == q.dv && p.datt == q.datt && p.dpre == q.dpre
    } by {
        let g = cell(bi, nh, h);
        lemma_head_gradients_once(
            head_gradients(d0, g, t, c, nh),
            head_gradients(x, g, t, c, nh),
            head_gradients(y, g, t, c, nh),
            head_output(dout, g, t, c, nh),
            head_part(inp, g, 0, t, c, nh),
            head_part(inp, g, 1, t, c, nh),
            head_part(inp, g, 2, t, c, nh),
            row(att, g, t * t),
            t,
            hs,
        );
    }
    assert forall|h: int, part: int| 0 <= h < nh && 0 <= part < 3 implies #[trigger] head_part(
        x.dinp,
        cell(bi, nh, h),
        part,
        t,
        c,
        nh,
    ) == head_part(y.dinp, cell(bi, nh, h), part, t, c, nh) by {
        let g = cell(bi, nh, h);
        assert(head_gradients(x, g, t, c, nh).dq == head_gradients(y, g, t, c, nh).dq);
    }
    assert forall|part: int| 0 <= part < 3 implies #[trigger] no_head_part(
        x.dinp,
        bi,
        part,
        t,
        c,
        nh,
    ) == no_head_part(y.dinp, bi, part, t, c, nh) by {
        assert(no_head_part(y.dinp, bi, part, t, c, nh) == no_head_part(
            d0.dinp,
            bi,
            part,
            t,
            c,
            nh,
        ));
    }
    assert forall|j: int| 0 <= j < x.dinp.len() implies x.dinp[j] == y.dinp[j] by {
        if bi * (t * (3 * c)) <= j < (bi + 1) * (t * (3 * c)) {
            lemma_sequence_determined(x.dinp, y.dinp, bi, b, t, c, nh, j);
        }
    }
    assert(x.dinp =~= y.dinp);
    let s = t * t;
    assert(0 <= s) by (nonlinear_arith)
        requires
            s == t * t,
    ;
    let first = (bi * nh) * s;
    assert((bi * nh + nh) * s == first + nh * s) by (nonlinear_arith)
        requires
            first == (bi * nh) * s,
    ;
    assert forall|j: int| first <= j < (bi * nh + nh) * s implies #[trigger] x.datt[j] == y.datt[j]
        && x.dpre[j] == y.dpre[j] by {
        lemma_in_row(j - first, nh, s);
        let h = (j - first) / s;
        let i = (j - first) % s;
        let g = cell(bi, nh, h);
        assert(g * s == first + h * s) by (nonlinear_arith)
            requires
                g == bi * nh + h,
                first == (bi * nh) * s,
        ;
        lemma_row_bound(g, s, s, b * nh);
        assert(row(x.datt, g, s) == row(y.datt, g, s));
        assert(row(x.datt, g, s)[i] == x.datt[j]);
        assert(row(y.datt, g, s)[i] == y.datt[j]);
        assert(row(x.dpre, g, s)[i] == x.dpre[j]);
        assert(row(y.dpre, g, s)[i] == y.dpre[j]);
    }
    assert forall|j: int| 0 <= j < x.dpre.len() implies x.dpre[j] == y.dpre[j] by {
        if first <= j < (bi * nh + nh) * s {
            assert(x.datt[j] == y.datt[j]);
        }
    }
    assert(x.datt =~= y.datt);
    assert(x.dpre =~= y.dpre);
}

/// The gradients of attention do not depend on what the buffers for them held: two runs on the
/// same operands leave the same gradients.
pub proof fn lemma_attention_gradients_once<T: Scalar>(
    x: Gradients<T>,
    y: Gradients<T>,
    dout: Seq<T>,
    inp: Seq<T>,
    att: Seq<T>,
    b: int,
    t: int,
    c: int,
    nh: int,
)
    requires
        functional::<T>(),
        0 <= t,
        0 <= c,
        0 < nh,
        x.dinp.len() == y.dinp.len(),
        x.datt.len() == y.datt.len(),
        x.dpre.len() == y.dpre.len(),
        b * (t * (3 * c)) <= x.dinp.len(),
        (b * nh) * (t * t) <= x.datt.len(),
        (b * nh) * (t * t) <= x.dpre.len(),
        attention_carried_back(x, dout, inp, att, b, t, c, nh),
        attention_carried_back(y, dout, inp, att, b, t, c, nh),
    ensures
        x == y,
{
    lemma_one_value_each::<T>();
    let p = choose|parts: Seq<Gradients<T>>|
        attention_carried_back_by(x, dout, inp, att, b, t, c, nh, parts);
    let q = choose|parts: Seq<Gradients<T>>|
        attention_carried_back_by(y, dout, inp, att, b, t, c, nh, parts);
    assert forall|bi: int| 0 <= bi < b implies p[bi] == q[bi] by {
        lemma_sequence_once(p[bi], q[bi], dout, inp, att, bi, b, t, c, nh);
    }
    assert(p =~= q);
    assert(x.dinp =~= y.dinp);
    assert(x.datt =~= y.datt);
    assert(x.dpre =~= y.dpre);
}

/// Zeros add up to zero.
pub open spec fn zeros_add_up<T: Scalar>() -> bool {
    forall|x: T, y: T, z: T| #[trigger]
        combines(Binary::Plus, x, y, z) && evals(nought(), x) && evals(nought(), y) ==> evals(
            nought(),
            z,
        )
}

/// Where zeros add up to zero, buffers that hold zero at a position add up to zero there.
proof fn lemma_merged_zero<T: Scalar>(parts: Seq<Seq<T>>, p: int, n: int, w: T)
    requires
        zeros_add_up::<T>(),
        evals(merged(parts, p, n), w),
        forall|i: int| 0 <= i < n ==> evals(nought(), (#[trigger] parts[i])[p]),
    ensures
        evals(nought(), w),
    decreases n,
{
    if n > 0 {
        reveal(evals);
        let (x, y) = choose|x: T, y: T|
            evals(merged(parts, p, n - 1), x) && evals(lit(parts[n - 1][p]), y)
                && #[trigger] combines(Binary::Plus, x, y, w);
        lemma_lit(parts[n - 1][p]);
        lemma_merged_zero(parts, p, n - 1, x);
        assert(evals(nought(), parts[n - 1][p]));
    }
}

/// No gradient is carried back to the attention that a place might pay to a later one, nor to the
/// score for it.
pub proof fn lemma_later_places_zero<T: Scalar>(
    d: Gradients<T>,
    dout: Seq<T>,
    inp: Seq<T>,
    att: Seq<T>,
    b: int,
    t: int,
    c: int,
    nh: int,
    r: int,
    h: int,
    p: int,
    q: int,
)
    requires
        zeros_add_up::<T>(),
        attention_carried_back(d, dout, inp, att, b, t, c, nh),
        (b * nh) * (t * t) <= d.datt.len(),
        (b * nh) * (t * t) <= d.dpre.len(),
        0 <= r < b,
        0 <= h < nh,
        0 <= p < q < t,
    ensures
        evals(nought(), d.datt[((r * nh + h) * t + p) * t + q]),
        evals(nought(), d.dpre[((r * nh + h) * t + p) * t + q]),
{
    let parts = choose|parts: Seq<Gradients<T>>|
        attention_carried_back_by(d, dout, inp, att, b, t, c, nh, parts);
    let s = t * t;
    let g = r * nh + h;
    let j = (g * t + p) * t + q;
    lemma_row_bound(r, h, nh, b);
    assert(0 <= s) by (nonlinear_arith)
        requires
            s == t * t,
    ;
    lemma_row_bound(g, s, s, b * nh);
    lemma_row_bound(p, q, t, t);
    assert(j == g * s + (p * t + q)) by (nonlinear_arith)
        requires
            j == (g * t + p) * t + q,
            s == t * t,
    ;
    assert forall|bi: int| 0 <= bi < b implies evals(nought(), (#[trigger] parts[bi]).datt[j])
        && evals(nought(), parts[bi].dpre[j]) by {
        let x = parts[bi];
        assert(sequence_alone(x, dout, inp, att, bi, t, c, nh));
        let d0 = choose|d0: Gradients<T>|
            {
                &&& resized(Seq::empty(), d0.dinp, x.dinp.len() as int)
                &&& resized(Seq::empty(), d0.datt, x.datt.len() as int)
                &&& resized(Seq::empty(), d0.dpre, x.dpre.len() as int)
                &&& #[trigger] sequence_carried_back(d0, x, dout, inp, att, bi, nh, t, c, nh)
            };
        assert(evals(nought(), d0.datt[j]) && evals(nought(), d0.dpre[j]));
        if bi == r {
            let e = head_gradients(x, g, t, c, nh);
            let e0 = head_gradients(d0, g, t, c, nh);
            let z = row(e.dpre, p, t);
            assert(row(e.datt, p, t)[q] == row(e0.datt, p, t)[q]);
            assert(z[q] == row(e0.dpre, p, t)[q]);
            assert(e.datt[p * t + q] == x.datt[j]);
            assert(e.dpre[p * t + q] == x.dpre[j]);
            assert(e0.datt[p * t + q] == d0.datt[j]);
            assert(e0.dpre[p * t + q] == d0.dpre[j]);
        } else {
            assert(!((bi * nh) * s <= j < (bi * nh + nh) * s)) by (nonlinear_arith)
                requires
                    g * s <= j < g * s + s,
                    g == r * nh + h,
                    0 <= h < nh,
                    bi != r,
                    0 <= s,
            ;
        }
    }
    let datts = Seq::new(parts.len(), |i: int| parts[i].datt);
    let dpres = Seq::new(parts.len(), |i: int| parts[i].dpre);
    assert forall|i: int| 0 <= i < b implies evals(nought(), (#[trigger] datts[i])[j]) by {
        assert(evals(nought(), parts[i].datt[j]));
    }
    assert forall|i: int| 0 <= i < b implies evals(nought(), (#[trigger] dpres[i])[j]) by {
        assert(evals(nought(), parts[i].datt[j]));
    }
    lemma_merged_zero(datts, j, b, d.datt[j]);
    lemma_merged_zero(dpres, j, b, d.dpre[j]);
}

} // verus!
