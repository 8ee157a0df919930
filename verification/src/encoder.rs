//! Token and position embeddings.

use vstd::prelude::*;
use vstd::slice::slice_subrange;

use crate::buffer::{lemma_nonzero_factors, lemma_row_bound, lemma_row_step, row, window_mut};
use crate::residual::{residual_forward, residual_sum};
use crate::scalar::{evals, lemma_lit, lit, Expr, Scalar, Traced};

verus! {

/// Every one of the first `n` tokens has a row of `c` elements in a table of `len` elements. An
/// empty row every token has.
pub open spec fn tokens_in_table(inp: Seq<i32>, n: int, c: int, len: int) -> bool {
    &&& n <= inp.len()
    &&& c > 0 ==> forall|r: int|
        0 <= r < n ==> 0 <= #[trigger] inp[r] && inp[r] * c + c <= len
}

/// Each row of `after` is the sum of the embedding of its token and that of its position. What
/// lies behind the rows is as it was in `before`.
pub open spec fn encoded<T: Scalar>(
    before: Seq<T>,
    after: Seq<T>,
    inp: Seq<i32>,
    wte: Seq<T>,
    wpe: Seq<T>,
    n: int,
    t: int,
    c: int,
) -> bool {
    &&& after.len() == before.len()
    &&& forall|r: int|
        0 <= r < n ==> residual_sum(
            row(before, r, c),
            #[trigger] row(after, r, c),
            row(wte, inp[r] as int, c),
            row(wpe, r % t, c),
            c,
        )
    &&& forall|j: int| n * c <= j < after.len() ==> #[trigger] after[j] == before[j]
}

/// The gradient at position `p` of the token embeddings, after the first `n` rows of `dout` have
/// been added to the row of their token.
pub open spec fn token_gradient<T>(
    base: Expr<T>,
    p: int,
    dout: Seq<T>,
    inp: Seq<i32>,
    c: int,
    n: int,
) -> Expr<T>
    decreases n,
{
    if n <= 0 {
        base
    } else {
        let prev = token_gradient(base, p, dout, inp, c, n - 1);
        let start = inp[n - 1] * c;
        if start <= p < start + c {
            prev.plus(lit(row(dout, n - 1, c)[p - start]))
        } else {
            prev
        }
    }
}

/// The gradient at position `p` of the position embeddings, after the first `n` rows of `dout`
/// have been added to the row of their place in a sequence of `t` tokens.
pub open spec fn position_gradient<T>(
    base: Expr<T>,
    p: int,
    dout: Seq<T>,
    t: int,
    c: int,
    n: int,
) -> Expr<T>
    decreases n,
{
    if n <= 0 {
        base
    } else {
        let prev = position_gradient(base, p, dout, t, c, n - 1);
        let start = ((n - 1) % t) * c;
        if start <= p < start + c {
            prev.plus(lit(row(dout, n - 1, c)[p - start]))
        } else {
            prev
        }
    }
}

/// `after` is the gradient `before` of the token embeddings with `n` rows of `dout` added.
pub open spec fn tokens_carried_back<T: Scalar>(
    before: Seq<T>,
    after: Seq<T>,
    dout: Seq<T>,
    inp: Seq<i32>,
    c: int,
    n: int,
) -> bool {
    &&& after.len() == before.len()
    &&& forall|p: int|
        0 <= p < after.len() ==> evals(
            token_gradient(lit(before[p]), p, dout, inp, c, n),
            #[trigger] after[p],
        )
}

/// `after` is the gradient `before` of the position embeddings with `n` rows of `dout` added.
pub open spec fn positions_carried_back<T: Scalar>(
    before: Seq<T>,
    after: Seq<T>,
    dout: Seq<T>,
    t: int,
    c: int,
    n: int,
) -> bool {
    &&& after.len() == before.len()
    &&& forall|p: int|
        0 <= p < after.len() ==> evals(
            position_gradient(lit(before[p]), p, dout, t, c, n),
            #[trigger] after[p],
        )
}

/// Where the row of a token begins.
proof fn lemma_token_start(token: i32, c: usize)
    requires
        c > 0 ==> 0 <= token,
    ensures
        (token as usize) * c == token * c,
        0 <= token * c,
        c == 0 ==> token * c == 0,
{
    if c > 0 {
        assert(0 <= token * c) by (nonlinear_arith)
            requires
                0 <= token,
                0 < c,
        ;
    } else {
        assert((token as usize) * c == 0 && token * c == 0) by (nonlinear_arith)
            requires
                c == 0,
        ;
    }
}

/// Looks up the embeddings of `b` sequences of `t` tokens with `c` channels.
pub fn encoder_forward<T: Scalar>(
    out: &mut [T],
    inp: &[i32],
    wte: &[T],
    wpe: &[T],
    b: usize,
    t: usize,
    c: usize,
)
    requires
        b * t <= usize::MAX,
        (b * t) * c <= old(out).len(),
        tokens_in_table(inp@, b * t, c as int, wte.len() as int),
        b > 0 ==> t * c <= wpe.len(),
    ensures
        encoded(old(out)@, final(out)@, inp@, wte@, wpe@, b * t, t as int, c as int),
{
    let n: usize = b * t;
    let ghost before = out@;
    for r in 0..n
        invariant
            n == b * t,
            n * c <= out.len(),
            tokens_in_table(inp@, n as int, c as int, wte.len() as int),
            b > 0 ==> t * c <= wpe.len(),
            encoded(before, out@, inp@, wte@, wpe@, r as int, t as int, c as int),
    {
        proof {
            lemma_row_bound(r as int, c as int, c as int, n as int);
            lemma_nonzero_factors(b as int, t as int);
            lemma_row_bound((r % t) as int, c as int, c as int, t as int);
            lemma_token_start(inp@[r as int], c);
        }
        let ghost prior = out@;
        let ix = inp[r] as usize;
        let token = slice_subrange(wte, ix * c, ix * c + c);
        let place = slice_subrange(wpe, (r % t) * c, (r % t) * c + c);
        let out_bt = window_mut(out, r * c, c);
        residual_forward(out_bt, token, place, c);
        proof {
            lemma_row_step(before, prior, r as int, c as int, n as int, out_bt@);
        }
    }
}

/// Adds the gradient of the embeddings, over `b` sequences of `t` tokens with `c` channels, to
/// the gradients of the two tables.
pub fn encoder_backward<T: Scalar>(
    dwte: &mut [T],
    dwpe: &mut [T],
    dout: &[T],
    inp: &[i32],
    b: usize,
    t: usize,
    c: usize,
)
    requires
        b * t <= usize::MAX,
        (b * t) * c <= dout.len(),
        tokens_in_table(inp@, b * t, c as int, old(dwte).len() as int),
        b > 0 ==> t * c <= old(dwpe).len(),
    ensures
        tokens_carried_back(old(dwte)@, final(dwte)@, dout@, inp@, c as int, b * t),
        positions_carried_back(old(dwpe)@, final(dwpe)@, dout@, t as int, c as int, b * t),
{
    let n: usize = b * t;
    let ghost wte0 = dwte@;
    let ghost wpe0 = dwpe@;
    proof {
        assert forall|x: T| #[trigger] evals(lit(x), x) by {
            lemma_lit(x);
        }
    }
    for r in 0..n
        invariant
            n == b * t,
            n * c <= dout.len(),
            tokens_in_table(inp@, n as int, c as int, dwte.len() as int),
            b > 0 ==> t * c <= dwpe.len(),
            tokens_carried_back(wte0, dwte@, dout@, inp@, c as int, r as int),
            positions_carried_back(wpe0, dwpe@, dout@, t as int, c as int, r as int),
    {
        proof {
            lemma_row_bound(r as int, c as int, c as int, n as int);
            lemma_nonzero_factors(b as int, t as int);
            lemma_row_bound((r % t) as int, c as int, c as int, t as int);
            lemma_token_start(inp@[r as int], c);
        }
        let ix = inp[r] as usize;
        let token = ix * c;
        let place = (r % t) * c;
        for i in 0..c
            invariant
                r < n,
                n * c <= dout.len(),
                r * c + c <= n * c,
                token == inp@[r as int] * c,
                token + c <= dwte.len(),
                place == (r % t) * c,
                place + c <= dwpe.len(),
                t > 0,
                dwte@.len() == wte0.len(),
                dwpe@.len() == wpe0.len(),
                forall|p: int|
                    0 <= p < dwte@.len() ==> evals(
                        token_gradient(
                            lit(wte0[p]),
                            p,
                            dout@,
                            inp@,
                            c as int,
                            if token <= p < token + i {
                                r + 1
                            } else {
                                r as int
                            },
                        ),
                        #[trigger] dwte@[p],
                    ),
                forall|p: int|
                    0 <= p < dwpe@.len() ==> evals(
                        position_gradient(
                            lit(wpe0[p]),
                            p,
                            dout@,
                            t as int,
                            c as int,
                            if place <= p < place + i {
                                r + 1
                            } else {
                                r as int
                            },
                        ),
                        #[trigger] dwpe@[p],
                    ),
        {
            let d = Traced::quote(dout[r * c + i]);
            let ghost p = token + i;
            let old_token = Traced {
                v: dwte[token + i],
                e: Ghost(token_gradient(lit(wte0[p]), p, dout@, inp@, c as int, r as int)),
            };
            dwte[token + i] = old_token.plus(&d).v;
            let ghost p = place + i;
            let old_place = Traced {
                v: dwpe[place + i],
                e: Ghost(position_gradient(lit(wpe0[p]), p, dout@, t as int, c as int, r as int)),
            };
            dwpe[place + i] = old_place.plus(&d).v;
        }
    }
}

} // verus!
