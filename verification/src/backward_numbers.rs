//! What the backward pass comes to, tensor by tensor, where scalars are real numbers.

use vstd::prelude::*;

use crate::attention_backward::Gradients;
use crate::attention_gradients::{gives_back, lemma_gives_back};
use crate::backward::{
    can_backward, gradient_room_made, layers_carried_back, model_carried_back, model_gradients_by,
};
use crate::buffer::{cell, lemma_row_bound, row};
use crate::forward::places;
use crate::forward_numbers::{all_exact, slab};
use crate::kernel_gradients::{
    activation_gradients, bias_gradients, input_gradients, lemma_activation_gradients,
    lemma_bias_gradients, lemma_input_gradients, lemma_logit_gradients_add, lemma_norm_gradients,
    lemma_position_gradients, lemma_token_gradients, lemma_weight_gradients, logit_gradients,
    norm_gradients, position_gradients, token_share, weight_gradients,
};
use crate::layers::{
    batch_fits, layer_acts, layer_input, layer_params, layers_parametrised, layers_sized,
    lemma_batch_fits, lemma_layer_bounds,
};
use crate::layers_backward::layer_gradients;
use crate::model::Model;
use crate::reals::{lemma_quotient, lemma_worth, rsum, sound, worth, Reading};
use crate::scalar::{unit, Expr, Scalar};
use crate::tensors::{lemma_acts_fit, Acts, Params};

verus! {

/// The gradients of layer `j`: what left it is handed on unchanged to the sum in its middle and to
/// the projection behind, goes back through the projections, the activation and the second
/// normalisation, is handed on from the sum in its middle in the same way, and goes back through
/// attention and the first normalisation to what entered the layer. On its way it reaches the
/// parameters: `g0` are their gradients before, and `d0` those of the activations.
pub open spec fn layer_back_by_numbers<T>(
    r: Reading<T>,
    p: Params<T>,
    a: Acts<T>,
    d0: Acts<T>,
    d: Acts<T>,
    g0: Params<T>,
    g: Params<T>,
    j: int,
    b: int,
    t: int,
    c: int,
    nh: int,
) -> bool {
    let n = b * t;
    let q = (b * nh) * (t * t);
    let entering = if j == 0 {
        a.encoded
    } else {
        slab(a.residual3, j - 1, n * c)
    };
    let dentering = if j == 0 {
        d.encoded
    } else {
        slab(d.residual3, j - 1, n * c)
    };
    let dout = slab(d.residual3, j, n * c);
    let dgelu = slab(d.fch_gelu, j, n * (4 * c));
    let dfch = slab(d.fch, j, n * (4 * c));
    let dln2 = slab(d.ln2, j, n * c);
    let dmid = slab(d.residual2, j, n * c);
    let datty = slab(d.atty, j, n * c);
    let dqkv = slab(d.qkv, j, n * (3 * c));
    let dln1 = slab(d.ln1, j, n * c);
    &&& slab(d.fcproj, j, n * c) == dout
    &&& input_gradients(r, dgelu, dout, slab(p.fcprojw, j, c * (4 * c)), n, 4 * c, c)
    &&& weight_gradients(
        r,
        slab(g.fcprojw, j, c * (4 * c)),
        dout,
        slab(a.fch_gelu, j, n * (4 * c)),
        n,
        4 * c,
        c,
    )
    &&& bias_gradients(r, slab(g0.fcprojb, j, c), slab(g.fcprojb, j, c), dout, n, c)
    &&& activation_gradients(
        r,
        slab(d0.fch, j, n * (4 * c)),
        dfch,
        slab(a.fch, j, n * (4 * c)),
        dgelu,
        n * (4 * c),
    )
    &&& input_gradients(r, dln2, dfch, slab(p.fcw, j, (4 * c) * c), n, c, 4 * c)
    &&& weight_gradients(
        r,
        slab(g.fcw, j, (4 * c) * c),
        dfch,
        slab(a.ln2, j, n * c),
        n,
        c,
        4 * c,
    )
    &&& bias_gradients(r, slab(g0.fcb, j, 4 * c), slab(g.fcb, j, 4 * c), dfch, n, 4 * c)
    &&& norm_gradients(
        r,
        dout,
        dmid,
        slab(g0.ln2w, j, c),
        slab(g.ln2w, j, c),
        slab(g0.ln2b, j, c),
        slab(g.ln2b, j, c),
        dln2,
        slab(a.residual2, j, n * c),
        slab(p.ln2w, j, c),
        slab(a.ln2_mean, j, n),
        slab(a.ln2_rstd, j, n),
        n,
        c,
    )
    &&& slab(d.attproj, j, n * c) == dmid
    &&& input_gradients(r, datty, dmid, slab(p.attprojw, j, c * c), n, c, c)
    &&& weight_gradients(
        r,
        slab(g.attprojw, j, c * c),
        dmid,
        slab(a.atty, j, n * c),
        n,
        c,
        c,
    )
    &&& bias_gradients(r, slab(g0.attprojb, j, c), slab(g.attprojb, j, c), dmid, n, c)
    &&& gives_back(
        r,
        (Gradients { dinp: dqkv, datt: slab(d.att, j, q), dpre: slab(d.preatt, j, q) }),
        datty,
        slab(a.qkv, j, n * (3 * c)),
        slab(a.att, j, q),
        b,
        t,
        c,
        nh,
    )
    &&& input_gradients(r, dln1, dqkv, slab(p.qkvw, j, (3 * c) * c), n, c, 3 * c)
    &&& weight_gradients(
        r,
        slab(g.qkvw, j, (3 * c) * c),
        dqkv,
        slab(a.ln1, j, n * c),
        n,
        c,
        3 * c,
    )
    &&& bias_gradients(r, slab(g0.qkvb, j, 3 * c), slab(g.qkvb, j, 3 * c), dqkv, n, 3 * c)
    &&& norm_gradients(
        r,
        dmid,
        dentering,
        slab(g0.ln1w, j, c),
        slab(g.ln1w, j, c),
        slab(g0.ln1b, j, c),
        slab(g.ln1b, j, c),
        dln1,
        entering,
        slab(p.ln1w, j, c),
        slab(a.ln1_mean, j, n),
        slab(a.ln1_rstd, j, n),
        n,
        c,
    )
}

/// A layer is carried back as the numbers say.
proof fn lemma_layer_back_by_numbers<T: Scalar>(
    r: Reading<T>,
    p: Params<T>,
    a: Acts<T>,
    d0: Acts<T>,
    d: Acts<T>,
    g0: Params<T>,
    g: Params<T>,
    j: int,
    count: int,
    b: int,
    t: int,
    c: int,
    nh: int,
)
    requires
        all_exact(r),
        0 <= j < count,
        batch_fits(b, t, c, nh, b * t, (b * nh) * (t * t)),
        0 <= (b * nh) * (t * t),
        layers_parametrised(p, count, c),
        layers_parametrised(g0, count, c),
        layers_sized(a, count, b * t, (b * nh) * (t * t), c),
        layers_sized(d0, count, b * t, (b * nh) * (t * t), c),
        layers_sized(d, count, b * t, (b * nh) * (t * t), c),
        a.encoded.len() == (b * t) * c,
        d.encoded.len() == (b * t) * c,
        layers_carried_back(p, a, d0, d, g0, g, 0, count, b, t, c, nh),
    ensures
        layer_back_by_numbers(r, p, a, d0, d, g0, g, j, b, t, c, nh),
{
    let n = b * t;
    let q = (b * nh) * (t * t);
    lemma_batch_fits(b, t, c, nh, n, q);
    lemma_layer_bounds(j, count, n, q, c);
    if j > 0 {
        lemma_layer_bounds(j - 1, count, n, q, c);
    }
    assert(c / nh <= c) by (nonlinear_arith)
        requires
            0 < nh,
            0 < c,
    ;
    assert(c * (3 * c) == (3 * c) * c && c * (4 * c) == (4 * c) * c) by (nonlinear_arith);
    let x = layer_params(p, j, c);
    let y = layer_acts(a, j, n, q, c);
    let z0 = layer_acts(d0, j, n, q, c);
    let z = layer_acts(d, j, n, q, c);
    let e0 = layer_params(g0, j, c);
    let e = layer_params(g, j, c);
    let entering = layer_input(a, j, n, c);
    let dentering = layer_input(d, j, n, c);
    assert(layer_gradients(x, y, entering, z0, z, dentering, e0, e, b, t, c, nh));
    lemma_input_gradients(r, z0.fch_gelu, z.fch_gelu, z.fcproj, x.fcprojw, n, 4 * c, c);
    lemma_weight_gradients(r, e0.fcprojw, e.fcprojw, z.fcproj, y.fch_gelu, n, 4 * c, c);
    lemma_bias_gradients(r, e0.fcprojb, e.fcprojb, z.fcproj, n, c);
    lemma_activation_gradients(r, z0.fch, z.fch, y.fch, z.fch_gelu, n * (4 * c));
    lemma_input_gradients(r, z0.ln2, z.ln2, z.fch, x.fcw, n, c, 4 * c);
    lemma_weight_gradients(r, e0.fcw, e.fcw, z.fch, y.ln2, n, c, 4 * c);
    lemma_bias_gradients(r, e0.fcb, e.fcb, z.fch, n, 4 * c);
    lemma_norm_gradients(
        r,
        z.residual3,
        z.residual2,
        e0.ln2w,
        e.ln2w,
        e0.ln2b,
        e.ln2b,
        z.ln2,
        y.residual2,
        x.ln2w,
        y.ln2_mean,
        y.ln2_rstd,
        n,
        c,
    );
    lemma_input_gradients(r, z0.atty, z.atty, z.attproj, x.attprojw, n, c, c);
    lemma_weight_gradients(r, e0.attprojw, e.attprojw, z.attproj, y.atty, n, c, c);
    lemma_bias_gradients(r, e0.attprojb, e.attprojb, z.attproj, n, c);
    lemma_gives_back(
        r,
        (Gradients { dinp: z.qkv, datt: z.att, dpre: z.preatt }),
        z.atty,
        y.qkv,
        y.att,
        b,
        t,
        c,
        nh,
    );
    lemma_input_gradients(r, z0.ln1, z.ln1, z.qkv, x.qkvw, n, c, 3 * c);
    lemma_weight_gradients(r, e0.qkvw, e.qkvw, z.qkv, y.ln1, n, c, 3 * c);
    lemma_bias_gradients(r, e0.qkvb, e.qkvb, z.qkv, n, 3 * c);
    lemma_norm_gradients(
        r,
        z.residual2,
        dentering,
        e0.ln1w,
        e.ln1w,
        e0.ln1b,
        e.ln1b,
        z.ln1,
        entering,
        x.ln1w,
        y.ln1_mean,
        y.ln1_rstd,
        n,
        c,
    );
}

/// The gradients of the embeddings of tokens: what those of the logits meet in what was projected
/// to them, and those of the places that hold the token.
pub open spec fn token_table_gradients<T>(
    r: Reading<T>,
    dwte: Seq<T>,
    dlogits: Seq<T>,
    lnf: Seq<T>,
    dencoded: Seq<T>,
    inputs: Seq<i32>,
    n: int,
    c: int,
    v: int,
) -> bool {
    forall|w: int, k: int|
        0 <= w < v && 0 <= k < c ==> (r.val)(dwte[#[trigger] cell(w, c, k)]) == rsum(
            |i: int| (r.val)(dlogits[i * v + w]) * (r.val)(lnf[i * c + k]),
            n,
        ) + rsum(|i: int| token_share(r, dencoded, inputs, c, w, k, i), n)
}

/// The gradients of a batch of `b` sequences of `t` tokens: every loss counts for one over their
/// number; its gradient goes back to the logits, through the embeddings of the tokens, the last
/// normalisation and the layers to the embeddings.
pub open spec fn batch_back_by_numbers<T>(
    r: Reading<T>,
    p: Params<T>,
    a: Acts<T>,
    inputs: Seq<i32>,
    targets: Seq<i32>,
    d0: Acts<T>,
    d: Acts<T>,
    g0: Params<T>,
    g: Params<T>,
    count: int,
    b: int,
    t: int,
    c: int,
    nh: int,
    v: int,
) -> bool {
    let n = b * t;
    &&& forall|i: int| 0 <= i < n ==> (r.val)(#[trigger] d.losses[i]) * (n as real) == 1real
    &&& logit_gradients(r, d0.logits, d.logits, d.losses, a.probs, targets, n, v)
    &&& input_gradients(r, d.lnf, d.logits, p.wte, n, c, v)
    &&& norm_gradients(
        r,
        slab(d0.residual3, count - 1, n * c),
        slab(d.residual3, count - 1, n * c),
        g0.lnfw,
        g.lnfw,
        g0.lnfb,
        g.lnfb,
        d.lnf,
        slab(a.residual3, count - 1, n * c),
        p.lnfw,
        a.lnf_mean,
        a.lnf_rstd,
        n,
        c,
    )
    &&& forall|j: int|
        0 <= j < count ==> #[trigger] layer_back_by_numbers(
            r,
            p,
            a,
            d0,
            d,
            g0,
            g,
            j,
            b,
            t,
            c,
            nh,
        )
    &&& token_table_gradients(r, g.wte, d.logits, a.lnf, d.encoded, inputs, n, c, v)
    &&& position_gradients(r, g0.wpe, g.wpe, d.encoded, t, n, c)
}

/// The backward pass computes the gradients of the transformer: those of the losses, the logits,
/// every layer and the embeddings are what the numbers say.
pub proof fn lemma_backward_by_numbers<T: Scalar>(
    r: Reading<T>,
    before: Model<T>,
    ready: Model<T>,
    after: Model<T>,
)
    requires
        all_exact(r),
        can_backward(before),
        gradient_room_made(before, ready),
        model_carried_back(ready, after),
        0 < places(before),
    ensures
        batch_back_by_numbers(
            r,
            before.params,
            before.acts,
            before.inputs,
            before.targets,
            ready.grads_acts,
            after.grads_acts,
            before.grads,
            after.grads,
            before.config.num_layers as int,
            before.batch_size as int,
            before.seq_len as int,
            before.config.channels as int,
            before.config.num_heads as int,
            before.config.vocab_size as int,
        ),
        after == (Model {
            grads: after.grads,
            grads_acts: after.grads_acts,
            grads_memory: after.grads_memory,
            ..before
        }),
{
    let count = before.config.num_layers as int;
    let b = before.batch_size as int;
    let t = before.seq_len as int;
    let c = before.config.channels as int;
    let nh = before.config.num_heads as int;
    let v = before.config.vocab_size as int;
    let n = b * t;
    let q = (b * nh) * (t * t);
    let (p, a) = (before.params, before.acts);
    let (d0, d) = (ready.grads_acts, after.grads_acts);
    let (g0, g) = (before.grads, after.grads);
    let (dloss, dwte) = choose|dloss: T, dwte: Seq<T>| #[trigger]
        model_gradients_by(
            ready.params,
            ready.acts,
            ready.inputs,
            ready.targets,
            ready.grads_acts,
            after.grads_acts,
            ready.grads,
            after.grads,
            ready.config.num_layers as int,
            ready.batch_size as int,
            ready.seq_len as int,
            ready.config.channels as int,
            ready.config.num_heads as int,
            ready.config.vocab_size as int,
            dloss,
            dwte,
        );
    lemma_acts_fit(b, t, count, nh, c, v);
    assert(batch_fits(b, t, c, nh, n, q));
    lemma_batch_fits(b, t, c, nh, n, q);
    lemma_layer_bounds(count - 1, count, n, q, c);
    assert(c * v == v * c) by (nonlinear_arith);
    // The losses and the logits.
    let one = Expr::<T>::Count(n as usize);
    assert(worth(r, unit().over(one)) == 1real / (n as real) && sound(r, unit().over(one))) by {
        reveal_with_fuel(worth, 2);
        reveal_with_fuel(sound, 2);
    }
    lemma_worth(r, unit().over(one), dloss);
    lemma_quotient(1real, n as real, 0real);
    lemma_logit_gradients_add(r, d0.logits, d.logits, d.losses, a.probs, before.targets, n, v);
    lemma_input_gradients(r, d0.lnf, d.lnf, d.logits, p.wte, n, c, v);
    lemma_norm_gradients(
        r,
        row(d0.residual3, count - 1, n * c),
        row(d.residual3, count - 1, n * c),
        g0.lnfw,
        g.lnfw,
        g0.lnfb,
        g.lnfb,
        d.lnf,
        row(a.residual3, count - 1, n * c),
        p.lnfw,
        a.lnf_mean,
        a.lnf_rstd,
        n,
        c,
    );
    assert(0 <= q) by {
        lemma_layer_bounds(count - 1, count, n, q, c);
    }
    assert(d.encoded.len() == n * c) by {
        lemma_layer_bounds(0, count, n, q, c);
        let z = layer_acts(d, 0, n, q, c);
        assert(layer_gradients(
            layer_params(p, 0, c),
            layer_acts(a, 0, n, q, c),
            layer_input(a, 0, n, c),
            layer_acts(d0, 0, n, q, c),
            z,
            layer_input(d, 0, n, c),
            layer_params(g0, 0, c),
            layer_params(g, 0, c),
            b,
            t,
            c,
            nh,
        ));
        assert(z.residual2.len() == n * c);
    }
    assert forall|j: int| 0 <= j < count implies #[trigger] layer_back_by_numbers(
        r,
        p,
        a,
        d0,
        d,
        g0,
        g,
        j,
        b,
        t,
        c,
        nh,
    ) by {
        lemma_layer_back_by_numbers(r, p, a, d0, d, g0, g, j, count, b, t, c, nh);
    }
    // The embeddings.
    lemma_weight_gradients(r, g0.wte, dwte, d.logits, a.lnf, n, c, v);
    lemma_token_gradients(r, dwte, g.wte, d.encoded, before.inputs, n, c);
    lemma_position_gradients(r, g0.wpe, g.wpe, d.encoded, t, n, c);
    assert forall|w: int, k: int| 0 <= w < v && 0 <= k < c implies (r.val)(
        g.wte[#[trigger] cell(w, c, k)],
    ) == rsum(|i: int| (r.val)(d.logits[i * v + w]) * (r.val)(a.lnf[i * c + k]), n) + rsum(
        |i: int| token_share(r, d.encoded, before.inputs, c, w, k, i),
        n,
    ) by {
        lemma_row_bound(w, k + 1, c, v);
        assert(dwte.len() == g0.wte.len());
        assert(cell(w, c, k) < g.wte.len());
    }
}

} // verus!
