//! What the gradients of attention come to, element by element, where scalars are real numbers.

use vstd::prelude::*;

use crate::attention::{head_output, head_part, lemma_head_bounds};
use crate::attention_backward::{
    attention_carried_back, attention_carried_back_by, attention_gradient, head_carried_back,
    head_gradients, key_gradient, lemma_head_of_pair, merged, no_head_part, query_gradient,
    scaled_gradient, score_gradient, sequence_alone, sequence_carried_back, value_gradient,
    Gradients,
};
use crate::attention_numbers::{
    channel, lemma_column_at, lemma_head_part_at, lemma_score_at, output_channel, score_place,
};
use crate::buffer::{lemma_row_bound, resized, row};
use crate::reals::{
    exact, exact_roots, lemma_quotient, lemma_root, lemma_rsum_same, lemma_worth, rsum, sound, square, worth, Reading,
};
use crate::scalar::{evals, lit, nought, Scalar};

verus! {

/// What attention gives back to the attention that place `tj` got from the query of place `ti`.
pub open spec fn value_meets<T>(
    r: Reading<T>,
    dout: Seq<T>,
    inp: Seq<T>,
    bi: int,
    h: int,
    ti: int,
    tj: int,
    t: int,
    c: int,
    nh: int,
    k: int,
) -> real {
    (r.val)(inp[channel(bi, tj, 2, h, k, t, c, nh)]) * (r.val)(
        dout[output_channel(bi, ti, h, k, t, c, nh)],
    )
}

/// What the attention paid to place `t2` gives back to the score of place `tj`.
pub open spec fn share_meets<T>(
    r: Reading<T>,
    datt: Seq<T>,
    att: Seq<T>,
    bi: int,
    h: int,
    ti: int,
    tj: int,
    t: int,
    nh: int,
    t2: int,
) -> real {
    (r.val)(att[score_place(bi, h, ti, t2, t, nh)]) * ((if t2 == tj {
        1real
    } else {
        0real
    }) - (r.val)(att[score_place(bi, h, ti, tj, t, nh)])) * (r.val)(
        datt[score_place(bi, h, ti, t2, t, nh)],
    )
}

/// What the score of place `t2` gives back to the query of place `ti`, before it is scaled.
pub open spec fn key_meets<T>(
    r: Reading<T>,
    dpre: Seq<T>,
    inp: Seq<T>,
    bi: int,
    h: int,
    ti: int,
    t: int,
    c: int,
    nh: int,
    k: int,
    t2: int,
) -> real {
    (r.val)(inp[channel(bi, t2, 1, h, k, t, c, nh)]) * (r.val)(
        dpre[score_place(bi, h, ti, t2, t, nh)],
    )
}

/// What the score for the query of place `ti` gives back to the key of place `t2`, before it is
/// scaled. Earlier queries have none.
pub open spec fn query_meets<T>(
    r: Reading<T>,
    dpre: Seq<T>,
    inp: Seq<T>,
    bi: int,
    h: int,
    t2: int,
    t: int,
    c: int,
    nh: int,
    k: int,
    ti: int,
) -> real {
    if t2 <= ti {
        (r.val)(inp[channel(bi, ti, 0, h, k, t, c, nh)]) * (r.val)(
            dpre[score_place(bi, h, ti, t2, t, nh)],
        )
    } else {
        0real
    }
}

/// What the output of place `ti` gives back to the value of place `t2`. Earlier places have none.
pub open spec fn output_meets<T>(
    r: Reading<T>,
    dout: Seq<T>,
    att: Seq<T>,
    bi: int,
    h: int,
    t2: int,
    t: int,
    c: int,
    nh: int,
    k: int,
    ti: int,
) -> real {
    if t2 <= ti {
        (r.val)(att[score_place(bi, h, ti, t2, t, nh)]) * (r.val)(
            dout[output_channel(bi, ti, h, k, t, c, nh)],
        )
    } else {
        0real
    }
}

/// The gradients of attention: of the attention that was paid and of the scores, of the queries and
/// keys, which are those of the products over the root `w` of the number of channels of a head, and
/// of the values.
pub open spec fn gives_back<T>(
    r: Reading<T>,
    d: Gradients<T>,
    dout: Seq<T>,
    inp: Seq<T>,
    att: Seq<T>,
    b: int,
    t: int,
    c: int,
    nh: int,
) -> bool {
    &&& forall|bi: int, h: int, ti: int, tj: int|
        0 <= bi < b && 0 <= h < nh && 0 <= tj <= ti < t ==> {
            let at = #[trigger] score_place(bi, h, ti, tj, t, nh);
            &&& (r.val)(d.datt[at]) == rsum(
                |k: int| value_meets(r, dout, inp, bi, h, ti, tj, t, c, nh, k),
                c / nh,
            )
            &&& (r.val)(d.dpre[at]) == rsum(
                |t2: int| share_meets(r, d.datt, att, bi, h, ti, tj, t, nh, t2),
                ti + 1,
            )
        }
    &&& forall|bi: int, h: int, ti: int, k: int, w: real|
        #![trigger channel(bi, ti, 0, h, k, t, c, nh), square(w)]
        0 <= bi < b && 0 <= h < nh && 0 <= ti < t && 0 <= k < c / nh && 0real <= w && square(w) == (
        c / nh) as real ==> {
            &&& (r.val)(d.dinp[channel(bi, ti, 0, h, k, t, c, nh)]) * w == rsum(
                |t2: int| key_meets(r, d.dpre, inp, bi, h, ti, t, c, nh, k, t2),
                ti + 1,
            )
            &&& (r.val)(d.dinp[channel(bi, ti, 1, h, k, t, c, nh)]) * w == rsum(
                |t2: int| query_meets(r, d.dpre, inp, bi, h, ti, t, c, nh, k, t2),
                t,
            )
        }
    &&& forall|bi: int, h: int, ti: int, k: int|
        0 <= bi < b && 0 <= h < nh && 0 <= ti < t && 0 <= k < c / nh ==> (r.val)(
            d.dinp[#[trigger] channel(bi, ti, 2, h, k, t, c, nh)],
        ) == rsum(|t2: int| output_meets(r, dout, att, bi, h, ti, t, c, nh, k, t2), t)
}

proof fn lemma_attention_gradient<T: Scalar>(
    r: Reading<T>,
    base: T,
    v: Seq<T>,
    dout: Seq<T>,
    m: int,
)
    requires
        0 <= m,
    ensures
        sound(r, attention_gradient(lit(base), v, dout, m)),
        worth(r, attention_gradient(lit(base), v, dout, m)) == (r.val)(base) + rsum(
            |k: int| (r.val)(v[k]) * (r.val)(dout[k]),
            m,
        ),
    decreases m,
{
    reveal_with_fuel(worth, 4);
    reveal_with_fuel(sound, 4);
    if m > 0 {
        lemma_attention_gradient(r, base, v, dout, m - 1);
    }
}

proof fn lemma_score_gradient<T: Scalar>(
    r: Reading<T>,
    att: Seq<T>,
    datt: Seq<T>,
    t3: int,
    m: int,
)
    requires
        0 <= m,
    ensures
        sound(r, score_gradient(att, datt, t3, m)),
        worth(r, score_gradient(att, datt, t3, m)) == rsum(
            |t2: int|
                (r.val)(att[t2]) * ((if t2 == t3 {
                    1real
                } else {
                    0real
                }) - (r.val)(att[t3])) * (r.val)(datt[t2]),
            m,
        ),
    decreases m,
{
    reveal_with_fuel(worth, 6);
    reveal_with_fuel(sound, 6);
    if m > 0 {
        lemma_score_gradient(r, att, datt, t3, m - 1);
    }
}

/// The gradient of an unscaled score is that of the score over the root.
proof fn lemma_scaled_gradient<T: Scalar>(r: Reading<T>, dpre: Seq<T>, t2: int, hs: int, w: real)
    requires
        exact_roots(r),
        0 < hs <= usize::MAX,
        0real <= w,
        square(w) == hs as real,
    ensures
        sound(r, scaled_gradient(dpre, t2, hs)),
        worth(r, scaled_gradient(dpre, t2, hs)) * w == (r.val)(dpre[t2]),
        0real < w,
{
    lemma_root(hs as real, w);
    assert(w != 0real) by (nonlinear_arith)
        requires
            w * w == hs as real,
            0 < hs,
    ;
    lemma_quotient(1real, w, 0real);
    reveal_with_fuel(worth, 5);
    reveal_with_fuel(sound, 5);
    let x = (r.val)(dpre[t2]);
    let f = 1real / w;
    assert((x * f) * w == x) by (nonlinear_arith)
        requires
            f * w == 1real,
    ;
}

proof fn lemma_query_gradient<T: Scalar>(
    r: Reading<T>,
    keys: Seq<T>,
    dpre: Seq<T>,
    k: int,
    hs: int,
    m: int,
    w: real,
)
    requires
        exact_roots(r),
        0 < hs <= usize::MAX,
        0real <= w,
        square(w) == hs as real,
        0 <= m,
    ensures
        sound(r, query_gradient(keys, dpre, k, hs, m)),
        worth(r, query_gradient(keys, dpre, k, hs, m)) * w == rsum(
            |t2: int| (r.val)(row(keys, t2, hs)[k]) * (r.val)(dpre[t2]),
            m,
        ),
    decreases m,
{
    if m > 0 {
        lemma_query_gradient(r, keys, dpre, k, hs, m - 1, w);
        lemma_scaled_gradient(r, dpre, m - 1, hs, w);
        let e = scaled_gradient(dpre, m - 1, hs);
        let a = worth(r, query_gradient(keys, dpre, k, hs, m - 1));
        let x = (r.val)(row(keys, m - 1, hs)[k]);
        let y = worth(r, e);
        assert(worth(r, query_gradient(keys, dpre, k, hs, m)) == a + x * y) by {
            reveal_with_fuel(worth, 3);
        }
        reveal_with_fuel(sound, 3);
        assert((a + x * y) * w == a * w + x * (y * w)) by (nonlinear_arith);
    } else {
        assert(0real * w == 0real) by (nonlinear_arith);
    }
}

proof fn lemma_key_gradient<T: Scalar>(
    r: Reading<T>,
    base: T,
    q: Seq<T>,
    dpre: Seq<T>,
    t2: int,
    k: int,
    t: int,
    hs: int,
    n: int,
    w: real,
)
    requires
        exact_roots(r),
        0 < hs <= usize::MAX,
        0real <= w,
        square(w) == hs as real,
        (r.val)(base) == 0real,
        0 <= n,
    ensures
        sound(r, key_gradient(lit(base), q, dpre, t2, k, t, hs, n)),
        worth(r, key_gradient(lit(base), q, dpre, t2, k, t, hs, n)) * w == rsum(
            |ti: int|
                if t2 <= ti {
                    (r.val)(row(q, ti, hs)[k]) * (r.val)(row(dpre, ti, t)[t2])
                } else {
                    0real
                },
            n,
        ),
    decreases n,
{
    if n > 0 {
        lemma_key_gradient(r, base, q, dpre, t2, k, t, hs, n - 1, w);
        if t2 <= n - 1 {
            let line = row(dpre, n - 1, t);
            lemma_scaled_gradient(r, line, t2, hs, w);
            let a = worth(r, key_gradient(lit(base), q, dpre, t2, k, t, hs, n - 1));
            let x = (r.val)(row(q, n - 1, hs)[k]);
            let y = worth(r, scaled_gradient(line, t2, hs));
            assert(worth(r, key_gradient(lit(base), q, dpre, t2, k, t, hs, n)) == a + x * y) by {
                reveal_with_fuel(worth, 3);
            }
            reveal_with_fuel(sound, 3);
            assert((a + x * y) * w == a * w + x * (y * w)) by (nonlinear_arith);
        }
    } else {
        assert(0real * w == 0real) by (nonlinear_arith);
    }
}

proof fn lemma_value_gradient<T: Scalar>(
    r: Reading<T>,
    base: T,
    att: Seq<T>,
    dout: Seq<T>,
    t2: int,
    k: int,
    t: int,
    hs: int,
    n: int,
)
    requires
        (r.val)(base) == 0real,
        0 <= n,
    ensures
        sound(r, value_gradient(lit(base), att, dout, t2, k, t, hs, n)),
        worth(r, value_gradient(lit(base), att, dout, t2, k, t, hs, n)) == rsum(
            |ti: int|
                if t2 <= ti {
                    (r.val)(row(att, ti, t)[t2]) * (r.val)(row(dout, ti, hs)[k])
                } else {
                    0real
                },
            n,
        ),
    decreases n,
{
    reveal_with_fuel(worth, 4);
    reveal_with_fuel(sound, 4);
    if n > 0 {
        lemma_value_gradient(r, base, att, dout, t2, k, t, hs, n - 1);
    }
}

/// Buffers that are added up come to the sum of what they hold.
proof fn lemma_merged<T: Scalar>(r: Reading<T>, parts: Seq<Seq<T>>, p: int, n: int)
    requires
        0 <= n,
    ensures
        sound(r, merged(parts, p, n)),
        worth(r, merged(parts, p, n)) == rsum(|i: int| (r.val)(parts[i][p]), n),
    decreases n,
{
    reveal_with_fuel(worth, 3);
    reveal_with_fuel(sound, 3);
    if n > 0 {
        lemma_merged(r, parts, p, n - 1);
    }
}

/// A sum with one term other than zero is that term.
proof fn lemma_one_term(f: spec_fn(int) -> real, n: int, s: int)
    requires
        forall|i: int| 0 <= i < n && i != s ==> #[trigger] f(i) == 0real,
    ensures
        rsum(f, n) == (if 0 <= s < n {
            f(s)
        } else {
            0real
        }),
    decreases n,
{
    if n > 0 {
        lemma_one_term(f, n - 1, s);
    }
}

/// What a sequence alone gives rise to is zero at the places of the others.
proof fn lemma_elsewhere<T: Scalar>(
    r: Reading<T>,
    d: Gradients<T>,
    dout: Seq<T>,
    inp: Seq<T>,
    att: Seq<T>,
    b: int,
    t: int,
    c: int,
    nh: int,
    parts: Seq<Gradients<T>>,
    bi: int,
    j: int,
)
    requires
        exact(r),
        attention_carried_back_by(d, dout, inp, att, b, t, c, nh, parts),
        0 <= bi < b,
        0 <= j,
    ensures
        j < d.dinp.len() && !(bi * (t * (3 * c)) <= j < (bi + 1) * (t * (3 * c))) ==> (r.val)(
            parts[bi].dinp[j],
        ) == 0real,
        j < d.datt.len() && !((bi * nh) * (t * t) <= j < (bi * nh + nh) * (t * t)) ==> (r.val)(
            parts[bi].datt[j],
        ) == 0real,
        j < d.dpre.len() && !((bi * nh) * (t * t) <= j < (bi * nh + nh) * (t * t)) ==> (r.val)(
            parts[bi].dpre[j],
        ) == 0real,
{
    let x = parts[bi];
    assert(sequence_alone(x, dout, inp, att, bi, t, c, nh));
    let d0 = choose|d0: Gradients<T>|
        {
            &&& resized(Seq::empty(), d0.dinp, x.dinp.len() as int)
            &&& resized(Seq::empty(), d0.datt, x.datt.len() as int)
            &&& resized(Seq::empty(), d0.dpre, x.dpre.len() as int)
            &&& #[trigger] sequence_carried_back(d0, x, dout, inp, att, bi, nh, t, c, nh)
        };
    if j < d.dinp.len() {
        assert(evals(nought(), d0.dinp[j]));
        lemma_worth(r, nought(), d0.dinp[j]);
    }
    if j < d.datt.len() {
        assert(evals(nought(), d0.datt[j]));
        lemma_worth(r, nought(), d0.datt[j]);
    }
    if j < d.dpre.len() {
        assert(evals(nought(), d0.dpre[j]));
        lemma_worth(r, nought(), d0.dpre[j]);
    }
}

/// Ranges of the same length that are counted from zero do not overlap.
proof fn lemma_ranges_apart(s: int, bi: int, w: int, j: int)
    requires
        0 <= w,
        bi * w <= j < (bi + 1) * w,
        s != bi,
    ensures
        !(s * w <= j < (s + 1) * w),
{
    assert(!(s * w <= j < (s + 1) * w)) by (nonlinear_arith)
        requires
            0 <= w,
            bi * w <= j < (bi + 1) * w,
            s != bi,
    ;
}

/// The gradients of the input at the places of a sequence are those that it gives rise to alone.
proof fn lemma_own_inputs<T: Scalar>(
    r: Reading<T>,
    d: Gradients<T>,
    dout: Seq<T>,
    inp: Seq<T>,
    att: Seq<T>,
    b: int,
    t: int,
    c: int,
    nh: int,
    parts: Seq<Gradients<T>>,
    bi: int,
    j: int,
)
    requires
        exact(r),
        attention_carried_back_by(d, dout, inp, att, b, t, c, nh, parts),
        0 <= bi < b,
        0 <= t,
        0 <= c,
        bi * (t * (3 * c)) <= j < (bi + 1) * (t * (3 * c)),
        0 <= j < d.dinp.len(),
    ensures
        (r.val)(d.dinp[j]) == (r.val)(parts[bi].dinp[j]),
{
    let all = Seq::new(parts.len(), |i: int| parts[i].dinp);
    let w = t * (3 * c);
    assert(0 <= w) by (nonlinear_arith)
        requires
            w == t * (3 * c),
            0 <= t,
            0 <= c,
    ;
    let f = |i: int| (r.val)(all[i][j]);
    assert forall|i: int| 0 <= i < b && i != bi implies #[trigger] f(i) == 0real by {
        lemma_ranges_apart(i, bi, w, j);
        lemma_elsewhere(r, d, dout, inp, att, b, t, c, nh, parts, i, j);
    }
    lemma_one_term(f, b, bi);
    lemma_merged(r, all, j, b);
    lemma_worth(r, merged(all, j, b), d.dinp[j]);
}

/// The gradients of the attention and the scores at the places of a sequence are those that it
/// gives rise to alone.
proof fn lemma_own_scores<T: Scalar>(
    r: Reading<T>,
    d: Gradients<T>,
    dout: Seq<T>,
    inp: Seq<T>,
    att: Seq<T>,
    b: int,
    t: int,
    c: int,
    nh: int,
    parts: Seq<Gradients<T>>,
    bi: int,
    j: int,
)
    requires
        exact(r),
        attention_carried_back_by(d, dout, inp, att, b, t, c, nh, parts),
        0 <= bi < b,
        0 < nh,
        (bi * nh) * (t * t) <= j < (bi * nh + nh) * (t * t),
        0 <= j < d.datt.len(),
        0 <= j < d.dpre.len(),
    ensures
        (r.val)(d.datt[j]) == (r.val)(parts[bi].datt[j]),
        (r.val)(d.dpre[j]) == (r.val)(parts[bi].dpre[j]),
{
    let datts = Seq::new(parts.len(), |i: int| parts[i].datt);
    let dpres = Seq::new(parts.len(), |i: int| parts[i].dpre);
    let w = nh * (t * t);
    assert(0 <= t * t) by (nonlinear_arith);
    assert(0 <= w) by (nonlinear_arith)
        requires
            w == nh * (t * t),
            0 < nh,
            0 <= t * t,
    ;
    let f = |i: int| (r.val)(datts[i][j]);
    let g = |i: int| (r.val)(dpres[i][j]);
    lemma_heads_of(bi, nh, t * t);
    assert forall|i: int| 0 <= i < b && i != bi implies #[trigger] f(i) == 0real by {
        lemma_heads_of(i, nh, t * t);
        lemma_ranges_apart(i, bi, w, j);
        lemma_elsewhere(r, d, dout, inp, att, b, t, c, nh, parts, i, j);
    }
    assert forall|i: int| 0 <= i < b && i != bi implies #[trigger] g(i) == 0real by {
        lemma_heads_of(i, nh, t * t);
        lemma_ranges_apart(i, bi, w, j);
        lemma_elsewhere(r, d, dout, inp, att, b, t, c, nh, parts, i, j);
    }
    lemma_one_term(f, b, bi);
    lemma_one_term(g, b, bi);
    lemma_merged(r, datts, j, b);
    lemma_merged(r, dpres, j, b);
    lemma_worth(r, merged(datts, j, b), d.datt[j]);
    lemma_worth(r, merged(dpres, j, b), d.dpre[j]);
}

proof fn lemma_heads_of(bi: int, nh: int, s: int)
    ensures
        (bi * nh) * s == bi * (nh * s),
        (bi * nh + nh) * s == (bi + 1) * (nh * s),
{
    assert((bi * nh) * s == bi * (nh * s)) by (nonlinear_arith);
    assert((bi * nh + nh) * s == (bi + 1) * (nh * s)) by (nonlinear_arith);
}

/// Where a score stands, and that it is one of its sequence.
proof fn lemma_score_in_sequence(b: int, t: int, nh: int, bi: int, h: int, ti: int, tj: int)
    requires
        0 <= bi < b,
        0 <= h < nh,
        0 <= ti < t,
        0 <= tj < t,
    ensures
        (bi * nh) * (t * t) <= score_place(bi, h, ti, tj, t, nh) < (bi * nh + nh) * (t * t),
        0 <= score_place(bi, h, ti, tj, t, nh) < (b * nh) * (t * t),
        score_place(bi, h, ti, tj, t, nh) == (bi * nh + h) * (t * t) + (ti * t + tj),
        0 <= ti * t + tj < t * t,
{
    let g = bi * nh + h;
    let s = t * t;
    lemma_row_bound(bi, h, nh, b);
    lemma_row_bound(bi, nh, nh, b);
    lemma_row_bound(ti, tj + 1, t, t);
    let j = score_place(bi, h, ti, tj, t, nh);
    assert(j == g * s + (ti * t + tj)) by (nonlinear_arith)
        requires
            j == (g * t + ti) * t + tj,
            s == t * t,
    ;
    assert((bi * nh) * s <= g * s && g * s + s <= (bi * nh + nh) * s && (bi * nh + nh) * s <= (b
        * nh) * s && 0 <= (bi * nh) * s) by (nonlinear_arith)
        requires
            g == bi * nh + h,
            0 <= h < nh,
            bi * nh + nh <= b * nh,
            0 <= bi * nh,
            0 <= s,
    ;
}

/// Where a channel of the input stands, and that it is one of its sequence.
proof fn lemma_channel_in_sequence(
    b: int,
    t: int,
    c: int,
    nh: int,
    bi: int,
    ti: int,
    part: int,
    h: int,
    k: int,
)
    requires
        0 <= bi < b,
        0 <= ti < t,
        0 <= part < 3,
        0 <= h < nh,
        0 <= c,
        0 <= k < c / nh,
    ensures
        bi * (t * (3 * c)) <= channel(bi, ti, part, h, k, t, c, nh) < (bi + 1) * (t * (3 * c)),
        0 <= channel(bi, ti, part, h, k, t, c, nh) < b * (t * (3 * c)),
{
    lemma_head_bounds(h, nh, c);
    let w = 3 * c;
    let x = part * c + h * (c / nh) + k;
    assert(0 <= part * c && part * c <= 2 * c) by (nonlinear_arith)
        requires
            0 <= part <= 2,
            0 <= c,
    ;
    lemma_row_bound(ti, x + 1, w, t);
    let j = channel(bi, ti, part, h, k, t, c, nh);
    assert(j == bi * (t * w) + (ti * w + x)) by (nonlinear_arith)
        requires
            j == (bi * t + ti) * w + x,
    ;
    assert((bi + 1) * (t * w) == bi * (t * w) + t * w) by (nonlinear_arith);
    lemma_row_bound(bi, t * w, t * w, b);
}

/// The gradients of the attention and of the scores.
proof fn lemma_scores_back<T: Scalar>(
    r: Reading<T>,
    d: Gradients<T>,
    dout: Seq<T>,
    inp: Seq<T>,
    att: Seq<T>,
    b: int,
    t: int,
    c: int,
    nh: int,
    parts: Seq<Gradients<T>>,
    bi: int,
    h: int,
    ti: int,
    tj: int,
)
    requires
        exact(r),
        attention_carried_back_by(d, dout, inp, att, b, t, c, nh, parts),
        0 <= bi < b,
        0 < nh,
        0 <= t,
        0 <= c,
        b * (t * (3 * c)) <= d.dinp.len(),
        (b * nh) * (t * t) <= d.datt.len(),
        (b * nh) * (t * t) <= d.dpre.len(),
        b * (t * c) <= dout.len(),
        b * (t * (3 * c)) <= inp.len(),
        (b * nh) * (t * t) <= att.len(),
        0 <= h < nh,
        0 <= tj <= ti < t,
    ensures
        ({
            let at = score_place(bi, h, ti, tj, t, nh);
            &&& (r.val)(d.datt[at]) == rsum(
                |k: int| value_meets(r, dout, inp, bi, h, ti, tj, t, c, nh, k),
                c / nh,
            )
            &&& (r.val)(d.dpre[at]) == rsum(
                |t2: int| share_meets(r, d.datt, att, bi, h, ti, tj, t, nh, t2),
                ti + 1,
            )
        }),
{
    let x = parts[bi];
    assert(sequence_alone(x, dout, inp, att, bi, t, c, nh));
    let d0 = choose|d0: Gradients<T>|
        {
            &&& resized(Seq::empty(), d0.dinp, x.dinp.len() as int)
            &&& resized(Seq::empty(), d0.datt, x.datt.len() as int)
            &&& resized(Seq::empty(), d0.dpre, x.dpre.len() as int)
            &&& #[trigger] sequence_carried_back(d0, x, dout, inp, att, bi, nh, t, c, nh)
        };
    let g = bi * nh + h;
    let hs = c / nh;
    let s = t * t;
    let n = ti + 1;
    lemma_head_of_pair(bi, h, nh);
    lemma_head_bounds(h, nh, c);
    lemma_row_bound(bi, h, nh, b);
    let e0 = head_gradients(d0, g, t, c, nh);
    let e = head_gradients(x, g, t, c, nh);
    let o = head_output(dout, g, t, c, nh);
    let v = head_part(inp, g, 2, t, c, nh);
    let a = row(att, g, s);
    assert(head_carried_back(
        e0,
        e,
        o,
        head_part(inp, g, 0, t, c, nh),
        head_part(inp, g, 1, t, c, nh),
        v,
        a,
        t,
        t,
        hs,
    ));
    let at = score_place(bi, h, ti, tj, t, nh);
    lemma_score_in_sequence(b, t, nh, bi, h, ti, tj);
    lemma_score_at(x.datt, b, t, nh, bi, h, ti, tj);
    lemma_score_at(x.dpre, b, t, nh, bi, h, ti, tj);
    lemma_score_at(d0.datt, b, t, nh, bi, h, ti, tj);
    lemma_score_at(d0.dpre, b, t, nh, bi, h, ti, tj);
    let line = row(e.dpre, ti, t);
    assert(evals(nought(), d0.datt[at]) && evals(nought(), d0.dpre[at]));
    lemma_worth(r, nought(), d0.datt[at]);
    lemma_worth(r, nought(), d0.dpre[at]);
    lemma_own_scores(r, d, dout, inp, att, b, t, c, nh, parts, bi, at);
    // The attention.
    let vj = row(v, tj, hs);
    let oi = row(o, ti, hs);
    assert(evals(attention_gradient(lit(d0.datt[at]), vj, oi, hs), x.datt[at]));
    lemma_attention_gradient(r, d0.datt[at], vj, oi, hs);
    lemma_worth(r, attention_gradient(lit(d0.datt[at]), vj, oi, hs), x.datt[at]);
    let f1 = |k: int| (r.val)(vj[k]) * (r.val)(oi[k]);
    let g1 = |k: int| value_meets(r, dout, inp, bi, h, ti, tj, t, c, nh, k);
    assert forall|k: int| 0 <= k < hs implies #[trigger] f1(k) == g1(k) by {
        lemma_head_part_at(inp, b, t, c, nh, bi, h, 2, tj, k);
        lemma_column_at(dout, b, t, c, bi, ti, h * hs, hs, k);
        lemma_row_bound(ti, hs, hs, t);
        lemma_row_bound(tj, hs, hs, t);
    }
    lemma_rsum_same(f1, g1, hs);
    // The scores.
    let ai = row(a, ti, t);
    let di = row(e.datt, ti, t);
    assert(evals(lit(d0.dpre[at]).plus(score_gradient(ai, di, tj, n)), line[tj]));
    lemma_score_gradient(r, ai, di, tj, n);
    let e2 = lit(d0.dpre[at]).plus(score_gradient(ai, di, tj, n));
    assert(worth(r, e2) == worth(r, score_gradient(ai, di, tj, n)) && sound(r, e2)) by {
        reveal_with_fuel(worth, 2);
        reveal_with_fuel(sound, 2);
    }
    lemma_worth(r, e2, line[tj]);
    let f2 = |t2: int|
        (r.val)(ai[t2]) * ((if t2 == tj {
            1real
        } else {
            0real
        }) - (r.val)(ai[tj])) * (r.val)(di[t2]);
    let g2 = |t2: int| share_meets(r, d.datt, att, bi, h, ti, tj, t, nh, t2);
    lemma_score_at(att, b, t, nh, bi, h, ti, tj);
    assert forall|t2: int| 0 <= t2 < n implies #[trigger] f2(t2) == g2(t2) by {
        lemma_score_at(att, b, t, nh, bi, h, ti, t2);
        lemma_score_at(x.datt, b, t, nh, bi, h, ti, t2);
        lemma_score_in_sequence(b, t, nh, bi, h, ti, t2);
        lemma_own_scores(
            r,
            d,
            dout,
            inp,
            att,
            b,
            t,
            c,
            nh,
            parts,
            bi,
            score_place(bi, h, ti, t2, t, nh),
        );
    }
    lemma_rsum_same(f2, g2, n);
}

/// The gradients of the queries, the keys and the values.
proof fn lemma_inputs_back<T: Scalar>(
    r: Reading<T>,
    d: Gradients<T>,
    dout: Seq<T>,
    inp: Seq<T>,
    att: Seq<T>,
    b: int,
    t: int,
    c: int,
    nh: int,
    parts: Seq<Gradients<T>>,
    bi: int,
    h: int,
    ti: int,
    k: int,
    w: real,
)
    requires
        exact(r),
        attention_carried_back_by(d, dout, inp, att, b, t, c, nh, parts),
        0 <= bi < b,
        0 < nh,
        0 <= t,
        0 <= c,
        b * (t * (3 * c)) <= d.dinp.len(),
        (b * nh) * (t * t) <= d.datt.len(),
        (b * nh) * (t * t) <= d.dpre.len(),
        b * (t * c) <= dout.len(),
        b * (t * (3 * c)) <= inp.len(),
        (b * nh) * (t * t) <= att.len(),
        0 <= h < nh,
        0 <= ti < t,
        0 <= k < c / nh <= usize::MAX,
        exact_roots(r),
    ensures
        0real <= w && square(w) == (c / nh) as real ==> (r.val)(
            d.dinp[channel(bi, ti, 0, h, k, t, c, nh)],
        ) * w == rsum(|t2: int| key_meets(r, d.dpre, inp, bi, h, ti, t, c, nh, k, t2), ti + 1),
        0real <= w && square(w) == (c / nh) as real ==> (r.val)(
            d.dinp[channel(bi, ti, 1, h, k, t, c, nh)],
        ) * w == rsum(|t2: int| query_meets(r, d.dpre, inp, bi, h, ti, t, c, nh, k, t2), t),
        (r.val)(d.dinp[channel(bi, ti, 2, h, k, t, c, nh)]) == rsum(
            |t2: int| output_meets(r, dout, att, bi, h, ti, t, c, nh, k, t2),
            t,
        ),
{
    let x = parts[bi];
    assert(sequence_alone(x, dout, inp, att, bi, t, c, nh));
    let d0 = choose|d0: Gradients<T>|
        {
            &&& resized(Seq::empty(), d0.dinp, x.dinp.len() as int)
            &&& resized(Seq::empty(), d0.datt, x.datt.len() as int)
            &&& resized(Seq::empty(), d0.dpre, x.dpre.len() as int)
            &&& #[trigger] sequence_carried_back(d0, x, dout, inp, att, bi, nh, t, c, nh)
        };
    let g = bi * nh + h;
    let hs = c / nh;
    let s = t * t;
    let n = ti + 1;
    lemma_head_of_pair(bi, h, nh);
    lemma_head_bounds(h, nh, c);
    lemma_row_bound(bi, h, nh, b);
    lemma_row_bound(ti, hs, hs, t);
    let e0 = head_gradients(d0, g, t, c, nh);
    let e = head_gradients(x, g, t, c, nh);
    let o = head_output(dout, g, t, c, nh);
    let q = head_part(inp, g, 0, t, c, nh);
    let keys = head_part(inp, g, 1, t, c, nh);
    let v = head_part(inp, g, 2, t, c, nh);
    let a = row(att, g, s);
    assert(head_carried_back(e0, e, o, q, keys, v, a, t, t, hs));
    let c0 = channel(bi, ti, 0, h, k, t, c, nh);
    let c1 = channel(bi, ti, 1, h, k, t, c, nh);
    let c2 = channel(bi, ti, 2, h, k, t, c, nh);
    lemma_channel_in_sequence(b, t, c, nh, bi, ti, 0, h, k);
    lemma_channel_in_sequence(b, t, c, nh, bi, ti, 1, h, k);
    lemma_channel_in_sequence(b, t, c, nh, bi, ti, 2, h, k);
    lemma_own_inputs(r, d, dout, inp, att, b, t, c, nh, parts, bi, c0);
    lemma_own_inputs(r, d, dout, inp, att, b, t, c, nh, parts, bi, c1);
    lemma_own_inputs(r, d, dout, inp, att, b, t, c, nh, parts, bi, c2);
    lemma_head_part_at(x.dinp, b, t, c, nh, bi, h, 0, ti, k);
    lemma_head_part_at(x.dinp, b, t, c, nh, bi, h, 1, ti, k);
    lemma_head_part_at(x.dinp, b, t, c, nh, bi, h, 2, ti, k);
    lemma_head_part_at(d0.dinp, b, t, c, nh, bi, h, 0, ti, k);
    lemma_head_part_at(d0.dinp, b, t, c, nh, bi, h, 1, ti, k);
    lemma_head_part_at(d0.dinp, b, t, c, nh, bi, h, 2, ti, k);
    assert(evals(nought(), d0.dinp[c0]) && evals(nought(), d0.dinp[c1]) && evals(
        nought(),
        d0.dinp[c2],
    ));
    lemma_worth(r, nought(), d0.dinp[c0]);
    lemma_worth(r, nought(), d0.dinp[c1]);
    lemma_worth(r, nought(), d0.dinp[c2]);
    let (dq, dk, dv) = (row(e.dq, ti, hs), row(e.dk, ti, hs), row(e.dv, ti, hs));
    let dpre = row(e.dpre, ti, t);
    assert(dq[k] == x.dinp[c0] && dk[k] == x.dinp[c1] && dv[k] == x.dinp[c2]);
    if 0real <= w && square(w) == hs as real {
        // The query.
        let e1 = lit(d0.dinp[c0]).plus(query_gradient(keys, dpre, k, hs, n));
        assert(evals(e1, dq[k]));
        lemma_query_gradient(r, keys, dpre, k, hs, n, w);
        assert(worth(r, e1) == worth(r, query_gradient(keys, dpre, k, hs, n)) && sound(r, e1)) by {
            reveal_with_fuel(worth, 2);
            reveal_with_fuel(sound, 2);
        }
        lemma_worth(r, e1, dq[k]);
        let f1 = |t2: int| (r.val)(row(keys, t2, hs)[k]) * (r.val)(dpre[t2]);
        let g1 = |t2: int| key_meets(r, d.dpre, inp, bi, h, ti, t, c, nh, k, t2);
        assert forall|t2: int| 0 <= t2 < n implies #[trigger] f1(t2) == g1(t2) by {
            lemma_own_line(r, d, dout, inp, att, b, t, c, nh, parts, bi, h, ti, t2);
            lemma_head_part_at(inp, b, t, c, nh, bi, h, 1, t2, k);
            lemma_row_bound(t2, hs, hs, t);
        }
        lemma_rsum_same(f1, g1, n);
        // The key.
        let e2 = key_gradient(lit(d0.dinp[c1]), q, e.dpre, ti, k, t, hs, t);
        assert(evals(e2, dk[k]));
        lemma_key_gradient(r, d0.dinp[c1], q, e.dpre, ti, k, t, hs, t, w);
        lemma_worth(r, e2, dk[k]);
        let f2 = |t2: int|
            if ti <= t2 {
                (r.val)(row(q, t2, hs)[k]) * (r.val)(row(e.dpre, t2, t)[ti])
            } else {
                0real
            };
        let g2 = |t2: int| query_meets(r, d.dpre, inp, bi, h, ti, t, c, nh, k, t2);
        assert forall|t2: int| 0 <= t2 < t implies #[trigger] f2(t2) == g2(t2) by {
            lemma_own_line(r, d, dout, inp, att, b, t, c, nh, parts, bi, h, t2, ti);
            lemma_head_part_at(inp, b, t, c, nh, bi, h, 0, t2, k);
            lemma_row_bound(t2, hs, hs, t);
        }
        lemma_rsum_same(f2, g2, t);
    }
    // The value.
    let e3 = value_gradient(lit(d0.dinp[c2]), a, o, ti, k, t, hs, t);
    assert(evals(e3, dv[k]));
    lemma_value_gradient(r, d0.dinp[c2], a, o, ti, k, t, hs, t);
    lemma_worth(r, e3, dv[k]);
    let f3 = |t2: int|
        if ti <= t2 {
            (r.val)(row(a, t2, t)[ti]) * (r.val)(row(o, t2, hs)[k])
        } else {
            0real
        };
    let g3 = |t2: int| output_meets(r, dout, att, bi, h, ti, t, c, nh, k, t2);
    assert forall|t2: int| 0 <= t2 < t implies #[trigger] f3(t2) == g3(t2) by {
        lemma_score_at(att, b, t, nh, bi, h, t2, ti);
        lemma_column_at(dout, b, t, c, bi, t2, h * hs, hs, k);
        lemma_row_bound(t2, hs, hs, t);
    }
    lemma_rsum_same(f3, g3, t);
}

/// The gradient of a score is found in the line of its query.
proof fn lemma_own_line<T: Scalar>(
    r: Reading<T>,
    d: Gradients<T>,
    dout: Seq<T>,
    inp: Seq<T>,
    att: Seq<T>,
    b: int,
    t: int,
    c: int,
    nh: int,
    parts: Seq<Gradients<T>>,
    bi: int,
    h: int,
    ti: int,
    tj: int,
)
    requires
        exact(r),
        attention_carried_back_by(d, dout, inp, att, b, t, c, nh, parts),
        0 <= bi < b,
        0 <= h < nh,
        0 <= ti < t,
        0 <= tj < t,
        (b * nh) * (t * t) <= d.datt.len(),
        (b * nh) * (t * t) <= d.dpre.len(),
    ensures
        (r.val)(row(row(parts[bi].dpre, bi * nh + h, t * t), ti, t)[tj]) == (r.val)(
            d.dpre[score_place(bi, h, ti, tj, t, nh)],
        ),
{
    lemma_score_at(parts[bi].dpre, b, t, nh, bi, h, ti, tj);
    lemma_score_in_sequence(b, t, nh, bi, h, ti, tj);
    lemma_own_scores(
        r,
        d,
        dout,
        inp,
        att,
        b,
        t,
        c,
        nh,
        parts,
        bi,
        score_place(bi, h, ti, tj, t, nh),
    );
}

/// The gradients of attention are those of its scores, shares and outputs, and none of them
/// depends on what was there before.
pub proof fn lemma_gives_back<T: Scalar>(
    r: Reading<T>,
    d: Gradients<T>,
    dout: Seq<T>,
    inp: Seq<T>,
    att: Seq<T>,
    b: int,
    t: int,
    c: int,
    nh: int,
)
    requires
        exact(r),
        exact_roots(r),
        attention_carried_back(d, dout, inp, att, b, t, c, nh),
        c / nh <= usize::MAX,
        0 < nh,
        0 <= t,
        0 <= c,
        b * (t * (3 * c)) <= d.dinp.len(),
        (b * nh) * (t * t) <= d.datt.len(),
        (b * nh) * (t * t) <= d.dpre.len(),
        b * (t * c) <= dout.len(),
        b * (t * (3 * c)) <= inp.len(),
        (b * nh) * (t * t) <= att.len(),
    ensures
        gives_back(r, d, dout, inp, att, b, t, c, nh),
{
    let parts = choose|parts: Seq<Gradients<T>>|
        attention_carried_back_by(d, dout, inp, att, b, t, c, nh, parts);
    assert forall|bi: int, h: int, ti: int, tj: int|
        0 <= bi < b && 0 <= h < nh && 0 <= tj <= ti < t implies {
        let at = #[trigger] score_place(bi, h, ti, tj, t, nh);
        &&& (r.val)(d.datt[at]) == rsum(
            |k: int| value_meets(r, dout, inp, bi, h, ti, tj, t, c, nh, k),
            c / nh,
        )
        &&& (r.val)(d.dpre[at]) == rsum(
            |t2: int| share_meets(r, d.datt, att, bi, h, ti, tj, t, nh, t2),
            ti + 1,
        )
    } by {
        lemma_scores_back(r, d, dout, inp, att, b, t, c, nh, parts, bi, h, ti, tj);
    }
    assert forall|bi: int, h: int, ti: int, k: int, w: real|
        #![trigger channel(bi, ti, 0, h, k, t, c, nh), square(w)]
        0 <= bi < b && 0 <= h < nh && 0 <= ti < t && 0 <= k < c / nh && 0real <= w && square(w) == (
        c / nh) as real implies {
        &&& (r.val)(d.dinp[channel(bi, ti, 0, h, k, t, c, nh)]) * w == rsum(
            |t2: int| key_meets(r, d.dpre, inp, bi, h, ti, t, c, nh, k, t2),
            ti + 1,
        )
        &&& (r.val)(d.dinp[channel(bi, ti, 1, h, k, t, c, nh)]) * w == rsum(
            |t2: int| query_meets(r, d.dpre, inp, bi, h, ti, t, c, nh, k, t2),
            t,
        )
    } by {
        lemma_inputs_back(r, d, dout, inp, att, b, t, c, nh, parts, bi, h, ti, k, w);
    }
    assert forall|bi: int, h: int, ti: int, k: int|
        0 <= bi < b && 0 <= h < nh && 0 <= ti < t && 0 <= k < c / nh implies (r.val)(
        d.dinp[#[trigger] channel(bi, ti, 2, h, k, t, c, nh)],
    ) == rsum(|t2: int| output_meets(r, dout, att, bi, h, ti, t, c, nh, k, t2), t) by {
        lemma_inputs_back(r, d, dout, inp, att, b, t, c, nh, parts, bi, h, ti, k, 0real);
    }
}

/// Nothing is given back where there is nothing to give back to: to the scores of later places and
/// the attention paid to them, and behind the batch.
pub proof fn lemma_nothing_else_back<T: Scalar>(
    r: Reading<T>,
    d: Gradients<T>,
    dout: Seq<T>,
    inp: Seq<T>,
    att: Seq<T>,
    b: int,
    t: int,
    c: int,
    nh: int,
    j: int,
)
    requires
        exact(r),
        attention_carried_back(d, dout, inp, att, b, t, c, nh),
        0 <= b,
        0 < nh,
        0 <= t,
        0 <= c,
        0 <= j,
    ensures
        b * (t * (3 * c)) <= j < d.dinp.len() ==> (r.val)(d.dinp[j]) == 0real,
        (b * nh) * (t * t) <= j < d.datt.len() ==> (r.val)(d.datt[j]) == 0real,
        (b * nh) * (t * t) <= j < d.dpre.len() ==> (r.val)(d.dpre[j]) == 0real,
        forall|bi: int, h: int, ti: int, tj: int|
            0 <= bi < b && 0 <= h < nh && 0 <= ti < tj < t && j == #[trigger] score_place(
                bi,
                h,
                ti,
                tj,
                t,
                nh,
            ) && (b * nh) * (t * t) <= d.datt.len() && (b * nh) * (t * t) <= d.dpre.len() ==> (
            r.val)(d.datt[j]) == 0real && (r.val)(d.dpre[j]) == 0real,
{
    let parts = choose|parts: Seq<Gradients<T>>|
        attention_carried_back_by(d, dout, inp, att, b, t, c, nh, parts);
    let w = t * (3 * c);
    assert(0 <= w) by (nonlinear_arith)
        requires
            w == t * (3 * c),
            0 <= t,
            0 <= c,
    ;
    assert(0 <= t * t) by (nonlinear_arith);
    let dinps = Seq::new(parts.len(), |i: int| parts[i].dinp);
    let datts = Seq::new(parts.len(), |i: int| parts[i].datt);
    let dpres = Seq::new(parts.len(), |i: int| parts[i].dpre);
    let f = |i: int| (r.val)(dinps[i][j]);
    let g = |i: int| (r.val)(datts[i][j]);
    let h = |i: int| (r.val)(dpres[i][j]);
    lemma_merged(r, dinps, j, b);
    lemma_merged(r, datts, j, b);
    lemma_merged(r, dpres, j, b);
    if b * w <= j < d.dinp.len() {
        assert forall|i: int| 0 <= i < b && i != -1 implies #[trigger] f(i) == 0real by {
            lemma_row_bound(i, w, w, b);
            assert((i + 1) * w == i * w + w) by (nonlinear_arith);
            lemma_elsewhere(r, d, dout, inp, att, b, t, c, nh, parts, i, j);
        }
        lemma_one_term(f, b, -1);
        lemma_worth(r, merged(dinps, j, b), d.dinp[j]);
    }
    if (b * nh) * (t * t) <= j < d.datt.len() {
        assert forall|i: int| 0 <= i < b && i != -1 implies #[trigger] g(i) == 0real by {
            lemma_behind_batch(i, b, nh, t * t, j);
            lemma_elsewhere(r, d, dout, inp, att, b, t, c, nh, parts, i, j);
        }
        lemma_one_term(g, b, -1);
        lemma_worth(r, merged(datts, j, b), d.datt[j]);
    }
    if (b * nh) * (t * t) <= j < d.dpre.len() {
        assert forall|i: int| 0 <= i < b && i != -1 implies #[trigger] h(i) == 0real by {
            lemma_behind_batch(i, b, nh, t * t, j);
            lemma_elsewhere(r, d, dout, inp, att, b, t, c, nh, parts, i, j);
        }
        lemma_one_term(h, b, -1);
        lemma_worth(r, merged(dpres, j, b), d.dpre[j]);
    }
    assert forall|bi: int, h: int, ti: int, tj: int|
        0 <= bi < b && 0 <= h < nh && 0 <= ti < tj < t && j == #[trigger] score_place(
            bi,
            h,
            ti,
            tj,
            t,
            nh,
        ) && (b * nh) * (t * t) <= d.datt.len() && (b * nh) * (t * t) <= d.dpre.len() implies (
    r.val)(d.datt[j]) == 0real && (r.val)(d.dpre[j]) == 0real by {
        lemma_later_back(r, d, dout, inp, att, b, t, c, nh, parts, bi, h, ti, tj);
    }
}

/// What lies behind a batch belongs to no sequence of it.
proof fn lemma_behind_batch(i: int, b: int, nh: int, s: int, j: int)
    requires
        0 <= i < b,
        0 < nh,
        0 <= s,
        (b * nh) * s <= j,
    ensures
        !((i * nh) * s <= j < (i * nh + nh) * s),
{
    let w = nh * s;
    assert(0 <= w) by (nonlinear_arith)
        requires
            w == nh * s,
            0 < nh,
            0 <= s,
    ;
    lemma_heads_of(i, nh, s);
    lemma_heads_of(b, nh, s);
    lemma_row_bound(i, w, w, b);
    assert((i + 1) * w == i * w + w) by (nonlinear_arith);
}

/// The gradients of later places.
proof fn lemma_later_back<T: Scalar>(
    r: Reading<T>,
    d: Gradients<T>,
    dout: Seq<T>,
    inp: Seq<T>,
    att: Seq<T>,
    b: int,
    t: int,
    c: int,
    nh: int,
    parts: Seq<Gradients<T>>,
    bi: int,
    h: int,
    ti: int,
    tj: int,
)
    requires
        exact(r),
        attention_carried_back_by(d, dout, inp, att, b, t, c, nh, parts),
        0 <= bi < b,
        0 <= h < nh,
        0 <= ti < tj < t,
        (b * nh) * (t * t) <= d.datt.len(),
        (b * nh) * (t * t) <= d.dpre.len(),
    ensures
        (r.val)(d.datt[score_place(bi, h, ti, tj, t, nh)]) == 0real,
        (r.val)(d.dpre[score_place(bi, h, ti, tj, t, nh)]) == 0real,
{
    let x = parts[bi];
    assert(sequence_alone(x, dout, inp, att, bi, t, c, nh));
    let d0 = choose|d0: Gradients<T>|
        {
            &&& resized(Seq::empty(), d0.dinp, x.dinp.len() as int)
            &&& resized(Seq::empty(), d0.datt, x.datt.len() as int)
            &&& resized(Seq::empty(), d0.dpre, x.dpre.len() as int)
            &&& #[trigger] sequence_carried_back(d0, x, dout, inp, att, bi, nh, t, c, nh)
        };
    let g = bi * nh + h;
    let at = score_place(bi, h, ti, tj, t, nh);
    lemma_score_in_sequence(b, t, nh, bi, h, ti, tj);
    lemma_score_at(x.datt, b, t, nh, bi, h, ti, tj);
    lemma_score_at(x.dpre, b, t, nh, bi, h, ti, tj);
    lemma_score_at(d0.datt, b, t, nh, bi, h, ti, tj);
    lemma_score_at(d0.dpre, b, t, nh, bi, h, ti, tj);
    lemma_own_scores(r, d, dout, inp, att, b, t, c, nh, parts, bi, at);
    let e0 = head_gradients(d0, g, t, c, nh);
    let e = head_gradients(x, g, t, c, nh);
    assert(head_carried_back(
        e0,
        e,
        head_output(dout, g, t, c, nh),
        head_part(inp, g, 0, t, c, nh),
        head_part(inp, g, 1, t, c, nh),
        head_part(inp, g, 2, t, c, nh),
        row(att, g, t * t),
        t,
        t,
        c / nh,
    ));
    let line = row(e.dpre, ti, t);
    assert(line[tj] == row(e0.dpre, ti, t)[tj]);
    assert(row(e.datt, ti, t)[tj] == row(e0.datt, ti, t)[tj]);
    assert(evals(nought(), d0.datt[at]) && evals(nought(), d0.dpre[at]));
    lemma_worth(r, nought(), d0.datt[at]);
    lemma_worth(r, nought(), d0.dpre[at]);
}

/// Nothing is given back to channels that belong to no head.
pub proof fn lemma_no_head_back<T: Scalar>(
    r: Reading<T>,
    d: Gradients<T>,
    dout: Seq<T>,
    inp: Seq<T>,
    att: Seq<T>,
    b: int,
    t: int,
    c: int,
    nh: int,
    bi: int,
    ti: int,
    part: int,
    k: int,
)
    requires
        exact(r),
        attention_carried_back(d, dout, inp, att, b, t, c, nh),
        0 <= bi < b,
        0 <= ti < t,
        0 <= part < 3,
        0 < nh,
        0 <= c,
        nh * (c / nh) <= k < c,
        b * (t * (3 * c)) <= d.dinp.len(),
    ensures
        (r.val)(d.dinp[(bi * t + ti) * (3 * c) + part * c + k]) == 0real,
{
    let parts = choose|parts: Seq<Gradients<T>>|
        attention_carried_back_by(d, dout, inp, att, b, t, c, nh, parts);
    let x = parts[bi];
    assert(sequence_alone(x, dout, inp, att, bi, t, c, nh));
    let d0 = choose|d0: Gradients<T>|
        {
            &&& resized(Seq::empty(), d0.dinp, x.dinp.len() as int)
            &&& resized(Seq::empty(), d0.datt, x.datt.len() as int)
            &&& resized(Seq::empty(), d0.dpre, x.dpre.len() as int)
            &&& #[trigger] sequence_carried_back(d0, x, dout, inp, att, bi, nh, t, c, nh)
        };
    lemma_head_bounds(0, nh, c);
    let hs = c / nh;
    let at = part * c + nh * hs;
    let w = c - nh * hs;
    assert(0 <= part * c && part * c <= 2 * c) by (nonlinear_arith)
        requires
            0 <= part <= 2,
            0 <= c,
    ;
    lemma_column_at(x.dinp, b, t, 3 * c, bi, ti, at, w, k - nh * hs);
    lemma_column_at(d0.dinp, b, t, 3 * c, bi, ti, at, w, k - nh * hs);
    assert(no_head_part(x.dinp, bi, part, t, c, nh) == no_head_part(d0.dinp, bi, part, t, c, nh));
    let j = (bi * t + ti) * (3 * c) + part * c + k;
    let z = part * c + k;
    lemma_row_bound(ti, z + 1, 3 * c, t);
    assert(j == bi * (t * (3 * c)) + (ti * (3 * c) + z)) by (nonlinear_arith)
        requires
            j == (bi * t + ti) * (3 * c) + z,
    ;
    assert((bi + 1) * (t * (3 * c)) == bi * (t * (3 * c)) + t * (3 * c)) by (nonlinear_arith);
    lemma_row_bound(bi, t * (3 * c), t * (3 * c), b);
    lemma_own_inputs(r, d, dout, inp, att, b, t, c, nh, parts, bi, j);
    assert(evals(nought(), d0.dinp[j]));
    lemma_worth(r, nought(), d0.dinp[j]);
}

} // verus!
