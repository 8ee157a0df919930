//! What holds of gradients across calls.

use vstd::prelude::*;

use crate::attention_backward::Gradients;
use crate::attention_laws::lemma_attention_gradients_once;
use crate::backward::{
    backward_outcome, can_backward, gradient_room_made, lacks_loss, layers_carried_back,
    model_carried_back, model_gradients_by,
};
use crate::buffer::{lemma_row_bound, resized, row, tail_kept};
use crate::crossentropy::{indicator, logits_carried_back};
use crate::determinism::{
    functional, lemma_acts_resized_once, lemma_bias_back_once, lemma_embeddings_back_once,
    lemma_gelu_back_once, lemma_in_row, lemma_input_back_once, lemma_layer_back_once,
    lemma_losses_back_once, lemma_one_value, lemma_one_value_each, lemma_resized_once,
    lemma_rows_determine, lemma_weight_back_once,
};
use crate::forward::places;
use crate::layers::{
    batch_fits, layer_acts, layer_input, layer_params, layers_parametrised, layers_sized,
    lemma_batch_fits, lemma_layer_bounds, LayerActs, LayerParams,
};
use crate::layers_backward::{layer_gradients, param_tails_kept};
use crate::model::{no_loss, Model, ModelError};
use crate::reals::{exact, lemma_worth, sound, worth, Reading};
use crate::scalar::{combines, evals, lemma_lit, lit, nought, unit, Binary, Expr, Scalar};
use crate::tensors::{lemma_acts_fit, zeroed, Acts, Params};
use crate::training::{forwarded, gradients_cleared};

verus! {

/// The gradients of the parameters of a layer are the same but for those of the four weights of
/// its projections, which are as long.
pub open spec fn layer_weights_differ<T>(x: LayerParams<T>, y: LayerParams<T>) -> bool {
    &&& y == (LayerParams {
        qkvw: y.qkvw,
        attprojw: y.attprojw,
        fcw: y.fcw,
        fcprojw: y.fcprojw,
        ..x
    })
    &&& y.qkvw.len() == x.qkvw.len()
    &&& y.attprojw.len() == x.attprojw.len()
    &&& y.fcw.len() == x.fcw.len()
    &&& y.fcprojw.len() == x.fcprojw.len()
}

/// A layer carries its gradients back in one way, whatever the gradients of the weights of its
/// projections were before.
proof fn lemma_layer_once<T: Scalar>(
    p: LayerParams<T>,
    a: LayerActs<T>,
    residual: Seq<T>,
    before: LayerActs<T>,
    x: LayerActs<T>,
    y: LayerActs<T>,
    dres1: Seq<T>,
    dres2: Seq<T>,
    pb1: LayerParams<T>,
    pb2: LayerParams<T>,
    pa1: LayerParams<T>,
    pa2: LayerParams<T>,
    q: int,
    b: int,
    t: int,
    c: int,
    nh: int,
)
    requires
        functional::<T>(),
        batch_fits(b, t, c, nh, b * t, q),
        q == (b * nh) * (t * t),
        layer_gradients(p, a, residual, before, x, dres1, pb1, pa1, b, t, c, nh),
        layer_gradients(p, a, residual, before, y, dres2, pb2, pa2, b, t, c, nh),
        x.residual3 == y.residual3,
        x.residual3.len() == (b * t) * c,
        x.residual2.len() == (b * t) * c,
        x.qkv.len() == (b * t) * (3 * c),
        y.qkv.len() == (b * t) * (3 * c),
        x.att.len() == q,
        y.att.len() == q,
        x.preatt.len() == q,
        y.preatt.len() == q,
        layer_weights_differ(pb1, pb2),
        pb1.qkvw.len() == (3 * c) * c,
        pb1.attprojw.len() == c * c,
        pb1.fcw.len() == (4 * c) * c,
        pb1.fcprojw.len() == c * (4 * c),
    ensures
        x == y,
        dres1 == dres2,
        pa1 == pa2,
{
    let n = b * t;
    lemma_batch_fits(b, t, c, nh, n, q);
    lemma_input_back_once(before.fch_gelu, x.fch_gelu, y.fch_gelu, x.fcproj, p.fcprojw, n, 4 * c, c);
    lemma_weight_back_once(
        pb1.fcprojw,
        pa1.fcprojw,
        pb2.fcprojw,
        pa2.fcprojw,
        x.fcproj,
        a.fch_gelu,
        n,
        4 * c,
        c,
    );
    lemma_bias_back_once(pb1.fcprojb, pa1.fcprojb, pa2.fcprojb, x.fcproj, n, c);
    lemma_gelu_back_once(before.fch, x.fch, y.fch, a.fch, x.fch_gelu, n * (4 * c));
    lemma_input_back_once(before.ln2, x.ln2, y.ln2, x.fch, p.fcw, n, c, 4 * c);
    lemma_weight_back_once(pb1.fcw, pa1.fcw, pb2.fcw, pa2.fcw, x.fch, a.ln2, n, c, 4 * c);
    lemma_bias_back_once(pb1.fcb, pa1.fcb, pa2.fcb, x.fch, n, 4 * c);
    lemma_layer_back_once(
        x.residual3,
        x.residual2,
        y.residual2,
        pb1.ln2w,
        pa1.ln2w,
        pa2.ln2w,
        pb1.ln2b,
        pa1.ln2b,
        pa2.ln2b,
        x.ln2,
        a.residual2,
        p.ln2w,
        a.ln2_mean,
        a.ln2_rstd,
        n,
        c,
    );
    lemma_input_back_once(before.atty, x.atty, y.atty, x.attproj, p.attprojw, n, c, c);
    lemma_weight_back_once(
        pb1.attprojw,
        pa1.attprojw,
        pb2.attprojw,
        pa2.attprojw,
        x.attproj,
        a.atty,
        n,
        c,
        c,
    );
    lemma_bias_back_once(pb1.attprojb, pa1.attprojb, pa2.attprojb, x.attproj, n, c);
    lemma_attention_gradients_once(
        Gradients { dinp: x.qkv, datt: x.att, dpre: x.preatt },
        Gradients { dinp: y.qkv, datt: y.att, dpre: y.preatt },
        x.atty,
        a.qkv,
        a.att,
        b,
        t,
        c,
        nh,
    );
    lemma_input_back_once(before.ln1, x.ln1, y.ln1, x.qkv, p.qkvw, n, c, 3 * c);
    lemma_weight_back_once(pb1.qkvw, pa1.qkvw, pb2.qkvw, pa2.qkvw, x.qkv, a.ln1, n, c, 3 * c);
    lemma_bias_back_once(pb1.qkvb, pa1.qkvb, pa2.qkvb, x.qkv, n, 3 * c);
    lemma_layer_back_once(
        x.residual2,
        dres1,
        dres2,
        pb1.ln1w,
        pa1.ln1w,
        pa2.ln1w,
        pb1.ln1b,
        pa1.ln1b,
        pa2.ln1b,
        x.ln1,
        residual,
        p.ln1w,
        a.ln1_mean,
        a.ln1_rstd,
        n,
        c,
    );
}

/// The gradients of the parameters are the same but for those of the weights that are part of
/// matrix products, and these are the same behind what the model uses.
pub open spec fn weights_differ<T>(x: Params<T>, y: Params<T>, count: int, c: int, v: int) -> bool {
    &&& y == (Params {
        wte: y.wte,
        qkvw: y.qkvw,
        attprojw: y.attprojw,
        fcw: y.fcw,
        fcprojw: y.fcprojw,
        ..x
    })
    &&& tail_kept(x.wte, y.wte, v * c)
    &&& tail_kept(x.qkvw, y.qkvw, count * ((3 * c) * c))
    &&& tail_kept(x.attprojw, y.attprojw, count * (c * c))
    &&& tail_kept(x.fcw, y.fcw, count * ((4 * c) * c))
    &&& tail_kept(x.fcprojw, y.fcprojw, count * (c * (4 * c)))
}

/// The layers from `m` on carry their gradients back in one way.
proof fn lemma_layers_once<T: Scalar>(
    p: Params<T>,
    a: Acts<T>,
    before: Acts<T>,
    x: Acts<T>,
    y: Acts<T>,
    pb1: Params<T>,
    pb2: Params<T>,
    pa1: Params<T>,
    pa2: Params<T>,
    m: int,
    count: int,
    q: int,
    b: int,
    t: int,
    c: int,
    nh: int,
    v: int,
)
    requires
        functional::<T>(),
        0 <= m < count,
        batch_fits(b, t, c, nh, b * t, q),
        q == (b * nh) * (t * t),
        layers_sized(x, count, b * t, q, c),
        layers_sized(y, count, b * t, q, c),
        layers_parametrised(pb1, count, c),
        weights_differ(pb1, pb2, count, c, v),
        layers_carried_back(p, a, before, x, pb1, pa1, 0, count, b, t, c, nh),
        layers_carried_back(p, a, before, y, pb2, pa2, 0, count, b, t, c, nh),
        row(x.residual3, count - 1, (b * t) * c) == row(y.residual3, count - 1, (b * t) * c),
    ensures
        forall|k: int|
            m <= k < count ==> #[trigger] layer_acts(x, k, b * t, q, c) == layer_acts(
                y,
                k,
                b * t,
                q,
                c,
            ),
        forall|k: int|
            m <= k < count ==> #[trigger] layer_params(pa1, k, c) == layer_params(pa2, k, c),
        layer_input(x, m, b * t, c) == layer_input(y, m, b * t, c),
    decreases count - m,
{
    let n = b * t;
    if m < count - 1 {
        lemma_layers_once(
            p,
            a,
            before,
            x,
            y,
            pb1,
            pb2,
            pa1,
            pa2,
            m + 1,
            count,
            q,
            b,
            t,
            c,
            nh,
            v,
        );
    }
    lemma_batch_fits(b, t, c, nh, n, q);
    assert(0 <= q) by (nonlinear_arith)
        requires
            q == (b * nh) * (t * t),
            0 <= b,
            0 < nh,
    ;
    lemma_layer_bounds(m, count, n, q, c);
    let u = layer_acts(x, m, n, q, c);
    let w = layer_acts(y, m, n, q, c);
    assert(u.residual3 == w.residual3);
    lemma_layer_once(
        layer_params(p, m, c),
        layer_acts(a, m, n, q, c),
        layer_input(a, m, n, c),
        layer_acts(before, m, n, q, c),
        u,
        w,
        layer_input(x, m, n, c),
        layer_input(y, m, n, c),
        layer_params(pb1, m, c),
        layer_params(pb2, m, c),
        layer_params(pa1, m, c),
        layer_params(pa2, m, c),
        q,
        b,
        t,
        c,
        nh,
    );
}

/// Layers that agree, and what lies behind them, make up parameters that agree.
proof fn lemma_params_determined<T>(x: Params<T>, y: Params<T>, count: int, c: int)
    requires
        0 <= count,
        0 <= c,
        layers_parametrised(x, count, c),
        param_tails_kept(x, y, count, c),
        forall|k: int| 0 <= k < count ==> #[trigger] layer_params(x, k, c) == layer_params(y, k, c),
        x.wte == y.wte,
        x.wpe == y.wpe,
        x.lnfw == y.lnfw,
        x.lnfb == y.lnfb,
    ensures
        x == y,
{
    if count > 0 {
        lemma_layer_bounds(0, count, 0, 0, c);
    }
    assert forall|k: int| 0 <= k < count implies #[trigger] row(x.ln1w, k, c) == row(
        y.ln1w,
        k,
        c,
    ) by {
        assert(layer_params(x, k, c) == layer_params(y, k, c));
    }
    lemma_rows_and_tail(x.ln1w, y.ln1w, count, c);
    assert forall|k: int| 0 <= k < count implies #[trigger] row(x.ln1b, k, c) == row(
        y.ln1b,
        k,
        c,
    ) by {
        assert(layer_params(x, k, c) == layer_params(y, k, c));
    }
    lemma_rows_and_tail(x.ln1b, y.ln1b, count, c);
    assert forall|k: int| 0 <= k < count implies #[trigger] row(x.qkvw, k, (3 * c) * c) == row(
        y.qkvw,
        k,
        (3 * c) * c,
    ) by {
        assert(layer_params(x, k, c) == layer_params(y, k, c));
    }
    lemma_rows_and_tail(x.qkvw, y.qkvw, count, (3 * c) * c);
    assert forall|k: int| 0 <= k < count implies #[trigger] row(x.qkvb, k, 3 * c) == row(
        y.qkvb,
        k,
        3 * c,
    ) by {
        assert(layer_params(x, k, c) == layer_params(y, k, c));
    }
    lemma_rows_and_tail(x.qkvb, y.qkvb, count, 3 * c);
    assert forall|k: int| 0 <= k < count implies #[trigger] row(x.attprojw, k, c * c) == row(
        y.attprojw,
        k,
        c * c,
    ) by {
        assert(layer_params(x, k, c) == layer_params(y, k, c));
    }
    lemma_rows_and_tail(x.attprojw, y.attprojw, count, c * c);
    assert forall|k: int| 0 <= k < count implies #[trigger] row(x.attprojb, k, c) == row(
        y.attprojb,
        k,
        c,
    ) by {
        assert(layer_params(x, k, c) == layer_params(y, k, c));
    }
    lemma_rows_and_tail(x.attprojb, y.attprojb, count, c);
    assert forall|k: int| 0 <= k < count implies #[trigger] row(x.ln2w, k, c) == row(
        y.ln2w,
        k,
        c,
    ) by {
        assert(layer_params(x, k, c) == layer_params(y, k, c));
    }
    lemma_rows_and_tail(x.ln2w, y.ln2w, count, c);
    assert forall|k: int| 0 <= k < count implies #[trigger] row(x.ln2b, k, c) == row(
        y.ln2b,
        k,
        c,
    ) by {
        assert(layer_params(x, k, c) == layer_params(y, k, c));
    }
    lemma_rows_and_tail(x.ln2b, y.ln2b, count, c);
    assert forall|k: int| 0 <= k < count implies #[trigger] row(x.fcw, k, (4 * c) * c) == row(
        y.fcw,
        k,
        (4 * c) * c,
    ) by {
        assert(layer_params(x, k, c) == layer_params(y, k, c));
    }
    lemma_rows_and_tail(x.fcw, y.fcw, count, (4 * c) * c);
    assert forall|k: int| 0 <= k < count implies #[trigger] row(x.fcb, k, 4 * c) == row(
        y.fcb,
        k,
        4 * c,
    ) by {
        assert(layer_params(x, k, c) == layer_params(y, k, c));
    }
    lemma_rows_and_tail(x.fcb, y.fcb, count, 4 * c);
    assert forall|k: int| 0 <= k < count implies #[trigger] row(x.fcprojw, k, c * (4 * c)) == row(
        y.fcprojw,
        k,
        c * (4 * c),
    ) by {
        assert(layer_params(x, k, c) == layer_params(y, k, c));
    }
    lemma_rows_and_tail(x.fcprojw, y.fcprojw, count, c * (4 * c));
    assert forall|k: int| 0 <= k < count implies #[trigger] row(x.fcprojb, k, c) == row(
        y.fcprojb,
        k,
        c,
    ) by {
        assert(layer_params(x, k, c) == layer_params(y, k, c));
    }
    lemma_rows_and_tail(x.fcprojb, y.fcprojb, count, c);
}

/// Rows and what lies behind them determine a buffer.
proof fn lemma_rows_and_tail<A>(x: Seq<A>, y: Seq<A>, n: int, w: int)
    requires
        0 <= n,
        n > 0 ==> 0 <= w,
        n * w <= x.len(),
        tail_kept(x, y, n * w),
        forall|r: int| 0 <= r < n ==> #[trigger] row(x, r, w) == row(y, r, w),
    ensures
        x == y,
{
    assert forall|j: int| 0 <= j < x.len() implies x[j] == y[j] by {
        if j < n * w {
            assert(n != 0) by (nonlinear_arith)
                requires
                    0 <= j < n * w,
            ;
            lemma_in_row(j, n, w);
            lemma_row_bound(j / w, j % w, w, n);
            assert(row(x, j / w, w)[j % w] == x[j]);
            assert(row(y, j / w, w)[j % w] == y[j]);
        }
    }
    assert(x =~= y);
}

/// Layers that agree make up activations that agree.
proof fn lemma_acts_determined<T>(x: Acts<T>, y: Acts<T>, count: int, n: int, q: int, c: int)
    requires
        0 < count,
        0 <= n,
        0 <= q,
        0 <= c,
        layers_sized(x, count, n, q, c),
        layers_sized(y, count, n, q, c),
        forall|k: int|
            0 <= k < count ==> #[trigger] layer_acts(x, k, n, q, c) == layer_acts(y, k, n, q, c),
        x.encoded == y.encoded,
        x.lnf == y.lnf,
        x.lnf_mean == y.lnf_mean,
        x.lnf_rstd == y.lnf_rstd,
        x.logits == y.logits,
        x.probs == y.probs,
        x.losses == y.losses,
    ensures
        x == y,
{
    lemma_layer_bounds(0, count, n, q, c);
    assert forall|k: int| 0 <= k < count implies #[trigger] row(x.ln1, k, n * c) == row(
        y.ln1,
        k,
        n * c,
    ) by {
        assert(layer_acts(x, k, n, q, c) == layer_acts(y, k, n, q, c));
    }
    lemma_rows_determine(x.ln1, y.ln1, count, n * c);
    assert forall|k: int| 0 <= k < count implies #[trigger] row(x.ln1_mean, k, n) == row(
        y.ln1_mean,
        k,
        n,
    ) by {
        assert(layer_acts(x, k, n, q, c) == layer_acts(y, k, n, q, c));
    }
    lemma_rows_determine(x.ln1_mean, y.ln1_mean, count, n);
    assert forall|k: int| 0 <= k < count implies #[trigger] row(x.ln1_rstd, k, n) == row(
        y.ln1_rstd,
        k,
        n,
    ) by {
        assert(layer_acts(x, k, n, q, c) == layer_acts(y, k, n, q, c));
    }
    lemma_rows_determine(x.ln1_rstd, y.ln1_rstd, count, n);
    assert forall|k: int| 0 <= k < count implies #[trigger] row(x.qkv, k, n * (3 * c)) == row(
        y.qkv,
        k,
        n * (3 * c),
    ) by {
        assert(layer_acts(x, k, n, q, c) == layer_acts(y, k, n, q, c));
    }
    lemma_rows_determine(x.qkv, y.qkv, count, n * (3 * c));
    assert forall|k: int| 0 <= k < count implies #[trigger] row(x.atty, k, n * c) == row(
        y.atty,
        k,
        n * c,
    ) by {
        assert(layer_acts(x, k, n, q, c) == layer_acts(y, k, n, q, c));
    }
    lemma_rows_determine(x.atty, y.atty, count, n * c);
    assert forall|k: int| 0 <= k < count implies #[trigger] row(x.preatt, k, q) == row(
        y.preatt,
        k,
        q,
    ) by {
        assert(layer_acts(x, k, n, q, c) == layer_acts(y, k, n, q, c));
    }
    lemma_rows_determine(x.preatt, y.preatt, count, q);
    assert forall|k: int| 0 <= k < count implies #[trigger] row(x.att, k, q) == row(
        y.att,
        k,
        q,
    ) by {
        assert(layer_acts(x, k, n, q, c) == layer_acts(y, k, n, q, c));
    }
    lemma_rows_determine(x.att, y.att, count, q);
    assert forall|k: int| 0 <= k < count implies #[trigger] row(x.attproj, k, n * c) == row(
        y.attproj,
        k,
        n * c,
    ) by {
        assert(layer_acts(x, k, n, q, c) == layer_acts(y, k, n, q, c));
    }
    lemma_rows_determine(x.attproj, y.attproj, count, n * c);
    assert forall|k: int| 0 <= k < count implies #[trigger] row(x.residual2, k, n * c) == row(
        y.residual2,
        k,
        n * c,
    ) by {
        assert(layer_acts(x, k, n, q, c) == layer_acts(y, k, n, q, c));
    }
    lemma_rows_determine(x.residual2, y.residual2, count, n * c);
    assert forall|k: int| 0 <= k < count implies #[trigger] row(x.ln2, k, n * c) == row(
        y.ln2,
        k,
        n * c,
    ) by {
        assert(layer_acts(x, k, n, q, c) == layer_acts(y, k, n, q, c));
    }
    lemma_rows_determine(x.ln2, y.ln2, count, n * c);
    assert forall|k: int| 0 <= k < count implies #[trigger] row(x.ln2_mean, k, n) == row(
        y.ln2_mean,
        k,
        n,
    ) by {
        assert(layer_acts(x, k, n, q, c) == layer_acts(y, k, n, q, c));
    }
    lemma_rows_determine(x.ln2_mean, y.ln2_mean, count, n);
    assert forall|k: int| 0 <= k < count implies #[trigger] row(x.ln2_rstd, k, n) == row(
        y.ln2_rstd,
        k,
        n,
    ) by {
        assert(layer_acts(x, k, n, q, c) == layer_acts(y, k, n, q, c));
    }
    lemma_rows_determine(x.ln2_rstd, y.ln2_rstd, count, n);
    assert forall|k: int| 0 <= k < count implies #[trigger] row(x.fch, k, n * (4 * c)) == row(
        y.fch,
        k,
        n * (4 * c),
    ) by {
        assert(layer_acts(x, k, n, q, c) == layer_acts(y, k, n, q, c));
    }
    lemma_rows_determine(x.fch, y.fch, count, n * (4 * c));
    assert forall|k: int| 0 <= k < count implies #[trigger] row(x.fch_gelu, k, n * (4 * c)) == row(
        y.fch_gelu,
        k,
        n * (4 * c),
    ) by {
        assert(layer_acts(x, k, n, q, c) == layer_acts(y, k, n, q, c));
    }
    lemma_rows_determine(x.fch_gelu, y.fch_gelu, count, n * (4 * c));
    assert forall|k: int| 0 <= k < count implies #[trigger] row(x.fcproj, k, n * c) == row(
        y.fcproj,
        k,
        n * c,
    ) by {
        assert(layer_acts(x, k, n, q, c) == layer_acts(y, k, n, q, c));
    }
    lemma_rows_determine(x.fcproj, y.fcproj, count, n * c);
    assert forall|k: int| 0 <= k < count implies #[trigger] row(x.residual3, k, n * c) == row(
        y.residual3,
        k,
        n * c,
    ) by {
        assert(layer_acts(x, k, n, q, c) == layer_acts(y, k, n, q, c));
    }
    lemma_rows_determine(x.residual3, y.residual3, count, n * c);
}

/// The gradients of the weights that are part of matrix products do not depend on what they were:
/// where the operations of the scalar type are functions, two models that differ in nothing else
/// are the same once the gradients have been computed.
pub proof fn lemma_backward_overwrites<T: Scalar>(
    m1: Model<T>,
    m2: Model<T>,
    after1: Model<T>,
    after2: Model<T>,
)
    requires
        functional::<T>(),
        can_backward(m1),
        m2 == (Model { grads: m2.grads, ..m1 }),
        weights_differ(
            m1.grads,
            m2.grads,
            m1.config.num_layers as int,
            m1.config.channels as int,
            m1.config.vocab_size as int,
        ),
        backward_outcome(m1, after1, Ok(())),
        backward_outcome(m2, after2, Ok(())),
    ensures
        after1 == after2,
{
    let ready1 = choose|ready: Model<T>| #[trigger]
        gradient_room_made(m1, ready) && model_carried_back(ready, after1);
    let ready2 = choose|ready: Model<T>| #[trigger]
        gradient_room_made(m2, ready) && model_carried_back(ready, after2);
    let count = m1.config.num_layers as int;
    let b = m1.batch_size as int;
    let t = m1.seq_len as int;
    let c = m1.config.channels as int;
    let nh = m1.config.num_heads as int;
    let v = m1.config.vocab_size as int;
    let n = b * t;
    let q = (b * nh) * (t * t);
    if m1.grads_memory.len() == 0 {
        lemma_resized_once(
            m1.grads_memory,
            ready1.grads_memory,
            ready2.grads_memory,
            m1.num_parameters as int,
        );
        lemma_acts_resized_once(
            m1.grads_acts,
            ready1.grads_acts,
            ready2.grads_acts,
            b,
            t,
            count,
            nh,
            c,
            v,
        );
    }
    let (p, a) = (m1.params, m1.acts);
    let d0 = ready1.grads_acts;
    let (g1, g2) = (m1.grads, m2.grads);
    let (x, y) = (after1.grads_acts, after2.grads_acts);
    let (dloss1, dwte1) = choose|dloss: T, dwte: Seq<T>| #[trigger]
        model_gradients_by(
            ready1.params,
            ready1.acts,
            ready1.inputs,
            ready1.targets,
            ready1.grads_acts,
            after1.grads_acts,
            ready1.grads,
            after1.grads,
            ready1.config.num_layers as int,
            ready1.batch_size as int,
            ready1.seq_len as int,
            ready1.config.channels as int,
            ready1.config.num_heads as int,
            ready1.config.vocab_size as int,
            dloss,
            dwte,
        );
    let (dloss2, dwte2) = choose|dloss: T, dwte: Seq<T>| #[trigger]
        model_gradients_by(
            ready2.params,
            ready2.acts,
            ready2.inputs,
            ready2.targets,
            ready2.grads_acts,
            after2.grads_acts,
            ready2.grads,
            after2.grads,
            ready2.config.num_layers as int,
            ready2.batch_size as int,
            ready2.seq_len as int,
            ready2.config.channels as int,
            ready2.config.num_heads as int,
            ready2.config.vocab_size as int,
            dloss,
            dwte,
        );
    lemma_acts_fit(b, t, count, nh, c, v);
    assert(batch_fits(b, t, c, nh, n, q));
    lemma_batch_fits(b, t, c, nh, n, q);
    lemma_layer_bounds(count - 1, count, n, q, c);
    assert(dloss1 == dloss2) by {
        lemma_one_value_each::<T>();
    }
    lemma_losses_back_once(
        d0.logits,
        x.logits,
        y.logits,
        x.losses,
        a.probs,
        m1.targets,
        n,
        v,
    );
    lemma_input_back_once(d0.lnf, x.lnf, y.lnf, x.logits, p.wte, n, c, v);
    lemma_weight_back_once(g1.wte, dwte1, g2.wte, dwte2, x.logits, a.lnf, n, c, v);
    lemma_layer_back_once(
        row(d0.residual3, count - 1, n * c),
        row(x.residual3, count - 1, n * c),
        row(y.residual3, count - 1, n * c),
        g1.lnfw,
        after1.grads.lnfw,
        after2.grads.lnfw,
        g1.lnfb,
        after1.grads.lnfb,
        after2.grads.lnfb,
        x.lnf,
        row(a.residual3, count - 1, n * c),
        p.lnfw,
        a.lnf_mean,
        a.lnf_rstd,
        n,
        c,
    );
    lemma_layers_once(
        p,
        a,
        d0,
        x,
        y,
        g1,
        g2,
        after1.grads,
        after2.grads,
        0,
        count,
        q,
        b,
        t,
        c,
        nh,
        v,
    );
    lemma_embeddings_back_once(
        dwte1,
        after1.grads.wte,
        after2.grads.wte,
        g1.wpe,
        after1.grads.wpe,
        after2.grads.wpe,
        x.encoded,
        m1.inputs,
        t,
        c,
        n,
    );
    lemma_acts_determined(x, y, count, n, q, c);
    lemma_params_determined(after1.grads, after2.grads, count, c);
}

/// The tensors of two sets of parameters are of the same lengths.
pub open spec fn params_match<T>(x: Params<T>, y: Params<T>) -> bool {
    &&& x.wte.len() == y.wte.len()
    &&& x.wpe.len() == y.wpe.len()
    &&& x.ln1w.len() == y.ln1w.len()
    &&& x.ln1b.len() == y.ln1b.len()
    &&& x.qkvw.len() == y.qkvw.len()
    &&& x.qkvb.len() == y.qkvb.len()
    &&& x.attprojw.len() == y.attprojw.len()
    &&& x.attprojb.len() == y.attprojb.len()
    &&& x.ln2w.len() == y.ln2w.len()
    &&& x.ln2b.len() == y.ln2b.len()
    &&& x.fcw.len() == y.fcw.len()
    &&& x.fcb.len() == y.fcb.len()
    &&& x.fcprojw.len() == y.fcprojw.len()
    &&& x.fcprojb.len() == y.fcprojb.len()
    &&& x.lnfw.len() == y.lnfw.len()
    &&& x.lnfb.len() == y.lnfb.len()
}

/// The tensors of two sets of activations are of the same lengths.
pub open spec fn acts_match<T>(x: Acts<T>, y: Acts<T>) -> bool {
    &&& x.encoded.len() == y.encoded.len()
    &&& x.ln1.len() == y.ln1.len()
    &&& x.ln1_mean.len() == y.ln1_mean.len()
    &&& x.ln1_rstd.len() == y.ln1_rstd.len()
    &&& x.qkv.len() == y.qkv.len()
    &&& x.atty.len() == y.atty.len()
    &&& x.preatt.len() == y.preatt.len()
    &&& x.att.len() == y.att.len()
    &&& x.attproj.len() == y.attproj.len()
    &&& x.residual2.len() == y.residual2.len()
    &&& x.ln2.len() == y.ln2.len()
    &&& x.ln2_mean.len() == y.ln2_mean.len()
    &&& x.ln2_rstd.len() == y.ln2_rstd.len()
    &&& x.fch.len() == y.fch.len()
    &&& x.fch_gelu.len() == y.fch_gelu.len()
    &&& x.fcproj.len() == y.fcproj.len()
    &&& x.residual3.len() == y.residual3.len()
    &&& x.lnf.len() == y.lnf.len()
    &&& x.lnf_mean.len() == y.lnf_mean.len()
    &&& x.lnf_rstd.len() == y.lnf_rstd.len()
    &&& x.logits.len() == y.logits.len()
    &&& x.probs.len() == y.probs.len()
    &&& x.losses.len() == y.losses.len()
}

/// Where there is one zero, two buffers of the same length that are set to zero are the same.
proof fn lemma_zeroed_once<T: Scalar>(b1: Seq<T>, a1: Seq<T>, b2: Seq<T>, a2: Seq<T>)
    requires
        functional::<T>(),
        zeroed(b1, a1),
        zeroed(b2, a2),
        b1.len() == b2.len(),
    ensures
        a1 == a2,
{
    assert forall|i: int| 0 <= i < a1.len() implies a1[i] == a2[i] by {
        lemma_one_value(nought(), a1[i], a2[i]);
    }
    assert(a1 =~= a2);
}

/// Gradients start over: once the gradients have been set to zero, what is computed for them
/// depends on the parameters, the activations, the tokens and the targets alone. Two models that
/// agree on these, with gradients of whatever values before, have the same gradients afterwards.
pub proof fn lemma_gradients_start_over<T: Scalar>(
    m1: Model<T>,
    m2: Model<T>,
    cleared1: Model<T>,
    cleared2: Model<T>,
    after1: Model<T>,
    after2: Model<T>,
)
    requires
        functional::<T>(),
        m2 == (Model {
            grads: m2.grads,
            grads_memory: m2.grads_memory,
            grads_acts: m2.grads_acts,
            ..m1
        }),
        params_match(m1.grads, m2.grads),
        acts_match(m1.grads_acts, m2.grads_acts),
        m1.grads_memory.len() == m2.grads_memory.len(),
        gradients_cleared(m1, cleared1),
        gradients_cleared(m2, cleared2),
        can_backward(cleared1),
        backward_outcome(cleared1, after1, Ok(())),
        backward_outcome(cleared2, after2, Ok(())),
    ensures
        after1 == after2,
{
    lemma_zeroed_once(
        m1.grads_memory,
        cleared1.grads_memory,
        m2.grads_memory,
        cleared2.grads_memory,
    );
    let (p1, q1, p2, q2) = (m1.grads, cleared1.grads, m2.grads, cleared2.grads);
    lemma_zeroed_once(p1.wte, q1.wte, p2.wte, q2.wte);
    lemma_zeroed_once(p1.wpe, q1.wpe, p2.wpe, q2.wpe);
    lemma_zeroed_once(p1.ln1w, q1.ln1w, p2.ln1w, q2.ln1w);
    lemma_zeroed_once(p1.ln1b, q1.ln1b, p2.ln1b, q2.ln1b);
    lemma_zeroed_once(p1.qkvw, q1.qkvw, p2.qkvw, q2.qkvw);
    lemma_zeroed_once(p1.qkvb, q1.qkvb, p2.qkvb, q2.qkvb);
    lemma_zeroed_once(p1.attprojw, q1.attprojw, p2.attprojw, q2.attprojw);
    lemma_zeroed_once(p1.attprojb, q1.attprojb, p2.attprojb, q2.attprojb);
    lemma_zeroed_once(p1.ln2w, q1.ln2w, p2.ln2w, q2.ln2w);
    lemma_zeroed_once(p1.ln2b, q1.ln2b, p2.ln2b, q2.ln2b);
    lemma_zeroed_once(p1.fcw, q1.fcw, p2.fcw, q2.fcw);
    lemma_zeroed_once(p1.fcb, q1.fcb, p2.fcb, q2.fcb);
    lemma_zeroed_once(p1.fcprojw, q1.fcprojw, p2.fcprojw, q2.fcprojw);
    lemma_zeroed_once(p1.fcprojb, q1.fcprojb, p2.fcprojb, q2.fcprojb);
    lemma_zeroed_once(p1.lnfw, q1.lnfw, p2.lnfw, q2.lnfw);
    lemma_zeroed_once(p1.lnfb, q1.lnfb, p2.lnfb, q2.lnfb);
    let (x1, y1, x2, y2) = (
        m1.grads_acts,
        cleared1.grads_acts,
        m2.grads_acts,
        cleared2.grads_acts,
    );
    lemma_zeroed_once(x1.encoded, y1.encoded, x2.encoded, y2.encoded);
    lemma_zeroed_once(x1.ln1, y1.ln1, x2.ln1, y2.ln1);
    lemma_zeroed_once(x1.ln1_mean, y1.ln1_mean, x2.ln1_mean, y2.ln1_mean);
    lemma_zeroed_once(x1.ln1_rstd, y1.ln1_rstd, x2.ln1_rstd, y2.ln1_rstd);
    lemma_zeroed_once(x1.qkv, y1.qkv, x2.qkv, y2.qkv);
    lemma_zeroed_once(x1.atty, y1.atty, x2.atty, y2.atty);
    lemma_zeroed_once(x1.preatt, y1.preatt, x2.preatt, y2.preatt);
    lemma_zeroed_once(x1.att, y1.att, x2.att, y2.att);
    lemma_zeroed_once(x1.attproj, y1.attproj, x2.attproj, y2.attproj);
    lemma_zeroed_once(x1.residual2, y1.residual2, x2.residual2, y2.residual2);
    lemma_zeroed_once(x1.ln2, y1.ln2, x2.ln2, y2.ln2);
    lemma_zeroed_once(x1.ln2_mean, y1.ln2_mean, x2.ln2_mean, y2.ln2_mean);
    lemma_zeroed_once(x1.ln2_rstd, y1.ln2_rstd, x2.ln2_rstd, y2.ln2_rstd);
    lemma_zeroed_once(x1.fch, y1.fch, x2.fch, y2.fch);
    lemma_zeroed_once(x1.fch_gelu, y1.fch_gelu, x2.fch_gelu, y2.fch_gelu);
    lemma_zeroed_once(x1.fcproj, y1.fcproj, x2.fcproj, y2.fcproj);
    lemma_zeroed_once(x1.residual3, y1.residual3, x2.residual3, y2.residual3);
    lemma_zeroed_once(x1.lnf, y1.lnf, x2.lnf, y2.lnf);
    lemma_zeroed_once(x1.lnf_mean, y1.lnf_mean, x2.lnf_mean, y2.lnf_mean);
    lemma_zeroed_once(x1.lnf_rstd, y1.lnf_rstd, x2.lnf_rstd, y2.lnf_rstd);
    lemma_zeroed_once(x1.logits, y1.logits, x2.logits, y2.logits);
    lemma_zeroed_once(x1.probs, y1.probs, x2.probs, y2.probs);
    lemma_zeroed_once(x1.losses, y1.losses, x2.losses, y2.losses);
    assert(cleared1 == cleared2);
    lemma_backward_overwrites(cleared1, cleared2, after1, after2);
}

/// All elements stand for zero.
pub open spec fn nothing<T>(r: Reading<T>, s: Seq<T>) -> bool {
    forall|i: int| 0 <= i < s.len() ==> (r.val)(#[trigger] s[i]) == 0real
}

/// All parameters stand for zero.
pub open spec fn no_params<T>(r: Reading<T>, p: Params<T>) -> bool {
    &&& nothing(r, p.wte)
    &&& nothing(r, p.wpe)
    &&& nothing(r, p.ln1w)
    &&& nothing(r, p.ln1b)
    &&& nothing(r, p.qkvw)
    &&& nothing(r, p.qkvb)
    &&& nothing(r, p.attprojw)
    &&& nothing(r, p.attprojb)
    &&& nothing(r, p.ln2w)
    &&& nothing(r, p.ln2b)
    &&& nothing(r, p.fcw)
    &&& nothing(r, p.fcb)
    &&& nothing(r, p.fcprojw)
    &&& nothing(r, p.fcprojb)
    &&& nothing(r, p.lnfw)
    &&& nothing(r, p.lnfb)
}

/// All activations stand for zero.
pub open spec fn no_acts<T>(r: Reading<T>, a: Acts<T>) -> bool {
    &&& nothing(r, a.encoded)
    &&& nothing(r, a.ln1)
    &&& nothing(r, a.ln1_mean)
    &&& nothing(r, a.ln1_rstd)
    &&& nothing(r, a.qkv)
    &&& nothing(r, a.atty)
    &&& nothing(r, a.preatt)
    &&& nothing(r, a.att)
    &&& nothing(r, a.attproj)
    &&& nothing(r, a.residual2)
    &&& nothing(r, a.ln2)
    &&& nothing(r, a.ln2_mean)
    &&& nothing(r, a.ln2_rstd)
    &&& nothing(r, a.fch)
    &&& nothing(r, a.fch_gelu)
    &&& nothing(r, a.fcproj)
    &&& nothing(r, a.residual3)
    &&& nothing(r, a.lnf)
    &&& nothing(r, a.lnf_mean)
    &&& nothing(r, a.lnf_rstd)
    &&& nothing(r, a.logits)
    &&& nothing(r, a.probs)
    &&& nothing(r, a.losses)
}

/// Setting the gradients to zero leaves nothing of any of them, and their lengths as they were.
pub proof fn lemma_cleared_to_nothing<T: Scalar>(
    r: Reading<T>,
    before: Model<T>,
    cleared: Model<T>,
)
    requires
        exact(r),
        gradients_cleared(before, cleared),
    ensures
        params_match(before.grads, cleared.grads),
        acts_match(before.grads_acts, cleared.grads_acts),
        before.grads_memory.len() == cleared.grads_memory.len(),
        nothing(r, cleared.grads_memory),
        no_params(r, cleared.grads),
        no_acts(r, cleared.grads_acts),
{
    reveal(evals);
    reveal(exact);
}

/// Zeros that are cut down or filled up with zeros are zeros.
proof fn lemma_nothing_resized<T: Scalar>(r: Reading<T>, before: Seq<T>, after: Seq<T>, n: int)
    requires
        exact(r),
        nothing(r, before),
        resized(before, after, n),
    ensures
        nothing(r, after),
{
    reveal(evals);
    reveal(exact);
}

/// Room that is made for gradients that are zero holds nothing but zeros.
pub proof fn lemma_room_of_nothing<T: Scalar>(r: Reading<T>, cleared: Model<T>, ready: Model<T>)
    requires
        exact(r),
        no_acts(r, cleared.grads_acts),
        gradient_room_made(cleared, ready),
    ensures
        no_acts(r, ready.grads_acts),
{
    if cleared.grads_memory.len() == 0 {
        let (x, y) = (cleared.grads_acts, ready.grads_acts);
        lemma_nothing_resized(r, x.encoded, y.encoded, y.encoded.len() as int);
        lemma_nothing_resized(r, x.ln1, y.ln1, y.ln1.len() as int);
        lemma_nothing_resized(r, x.ln1_mean, y.ln1_mean, y.ln1_mean.len() as int);
        lemma_nothing_resized(r, x.ln1_rstd, y.ln1_rstd, y.ln1_rstd.len() as int);
        lemma_nothing_resized(r, x.qkv, y.qkv, y.qkv.len() as int);
        lemma_nothing_resized(r, x.atty, y.atty, y.atty.len() as int);
        lemma_nothing_resized(r, x.preatt, y.preatt, y.preatt.len() as int);
        lemma_nothing_resized(r, x.att, y.att, y.att.len() as int);
        lemma_nothing_resized(r, x.attproj, y.attproj, y.attproj.len() as int);
        lemma_nothing_resized(r, x.residual2, y.residual2, y.residual2.len() as int);
        lemma_nothing_resized(r, x.ln2, y.ln2, y.ln2.len() as int);
        lemma_nothing_resized(r, x.ln2_mean, y.ln2_mean, y.ln2_mean.len() as int);
        lemma_nothing_resized(r, x.ln2_rstd, y.ln2_rstd, y.ln2_rstd.len() as int);
        lemma_nothing_resized(r, x.fch, y.fch, y.fch.len() as int);
        lemma_nothing_resized(r, x.fch_gelu, y.fch_gelu, y.fch_gelu.len() as int);
        lemma_nothing_resized(r, x.fcproj, y.fcproj, y.fcproj.len() as int);
        lemma_nothing_resized(r, x.residual3, y.residual3, y.residual3.len() as int);
        lemma_nothing_resized(r, x.lnf, y.lnf, y.lnf.len() as int);
        lemma_nothing_resized(r, x.lnf_mean, y.lnf_mean, y.lnf_mean.len() as int);
        lemma_nothing_resized(r, x.lnf_rstd, y.lnf_rstd, y.lnf_rstd.len() as int);
        lemma_nothing_resized(r, x.logits, y.logits, y.logits.len() as int);
        lemma_nothing_resized(r, x.probs, y.probs, y.probs.len() as int);
        lemma_nothing_resized(r, x.losses, y.losses, y.losses.len() as int);
    }
}

/// Whatever stands for minus one, the comparison with it finds it.
pub open spec fn knows_minus_one<T: Scalar>() -> bool {
    forall|x: T, y: T| #[trigger]
        evals(no_loss(), x) && #[trigger] evals(no_loss(), y) ==> !call_ensures(
            T::eq,
            (x, y),
            false,
        )
}

/// The gradients can be computed if and only if the last batch had targets: where the comparison
/// finds minus one, and does not find it in the mean loss of targets, the call for the gradients
/// fails if and only if the batch that was computed last had no targets. Targets of an earlier
/// batch make no difference. A call that fails changes nothing.
pub proof fn lemma_backward_needs_targets<T: Scalar>(
    before: Model<T>,
    computed: Model<T>,
    inputs: Seq<i32>,
    targets: Option<Seq<i32>>,
    b: usize,
    t: usize,
    after: Model<T>,
    r: Result<(), ModelError>,
)
    requires
        knows_minus_one::<T>(),
        forwarded(before, computed, inputs, targets, b, t),
        targets is Some ==> !lacks_loss(computed.mean_loss, true),
        backward_outcome(computed, after, r),
    ensures
        r is Err <==> targets is None,
        r is Err ==> after == computed,
{
}

/// The gradients are refused if and only if the mean loss is minus one, and then nothing changes.
pub proof fn lemma_backward_refused<T: Scalar>(
    r: Reading<T>,
    before: Model<T>,
    after: Model<T>,
    outcome: Result<(), ModelError>,
)
    requires
        exact(r),
        backward_outcome(before, after, outcome),
    ensures
        outcome is Err <==> (r.val)(before.mean_loss) == -1real,
        outcome is Err ==> after == before && outcome == Err::<(), ModelError>(
            ModelError::NoTargets,
        ),
{
    let answer = outcome is Err;
    let unset = choose|unset: T| #[trigger]
        evals(no_loss(), unset) && call_ensures(T::eq, (before.mean_loss, unset), answer);
    reveal_with_fuel(worth, 3);
    reveal_with_fuel(sound, 3);
    lemma_worth(r, no_loss(), unset);
    reveal(exact);
}

/// A number that was quoted in a product that was added to zero may be replaced by the formula
/// that it is a value of.
proof fn lemma_quoted_factor<T: Scalar>(z: T, e: Expr<T>, x: T, d: Expr<T>, w: T)
    requires
        evals(nought(), z),
        evals(d, x),
        evals(lit(z).plus(e.times(lit(x))), w),
    ensures
        evals(nought().plus(e.times(d)), w),
{
    reveal(evals);
    lemma_lit(x);
    lemma_lit(z);
    let (u, s) = choose|u: T, s: T|
        evals(lit(z), u) && evals(e.times(lit(x)), s) && #[trigger] combines(
            Binary::Plus,
            u,
            s,
            w,
        );
    let (f, g) = choose|f: T, g: T|
        evals(e, f) && evals(lit(x), g) && #[trigger] combines(Binary::Times, f, g, s);
    assert(g == x && u == z);
    assert(evals(e.times(d), s));
}

/// After a batch with targets, and the gradients set to zero, the gradient of each loss is one over
/// the number of places, and that of each logit is zero plus its probability, less one where it is
/// the target, times that.
pub proof fn lemma_logit_gradients<T: Scalar>(
    before: Model<T>,
    computed: Model<T>,
    inputs: Seq<i32>,
    targets: Seq<i32>,
    b: usize,
    t: usize,
    cleared: Model<T>,
    after: Model<T>,
    r: int,
    i: int,
)
    requires
        forwarded(before, computed, inputs, Some(targets), b, t),
        gradients_cleared(computed, cleared),
        can_backward(cleared),
        backward_outcome(cleared, after, Ok(())),
        0 <= r < places(cleared),
        0 <= i < before.config.vocab_size,
    ensures
        before.acts_memory.len() == 0 ==> places(cleared) == b * t,
        evals(unit().over(Expr::Count(places(cleared) as usize)), after.grads_acts.losses[r]),
        evals(
            nought().plus(
                lit(after.acts.probs[r * before.config.vocab_size + i]).minus(
                    indicator(i, targets[r] as int),
                ).times(unit().over(Expr::Count(places(cleared) as usize))),
            ),
            after.grads_acts.logits[r * before.config.vocab_size + i],
        ),
{
    let ready = choose|ready: Model<T>| #[trigger]
        gradient_room_made(cleared, ready) && model_carried_back(ready, after);
    let (dloss, dwte) = choose|dloss: T, dwte: Seq<T>| #[trigger]
        model_gradients_by(
            ready.params,
            ready.acts,
            ready.inputs,
            ready.targets,
            ready.grads_acts,
            after.grads_acts,
            ready.grads,
            after.grads,
            ready.config.num_layers as int,
            ready.batch_size as int,
            ready.seq_len as int,
            ready.config.channels as int,
            ready.config.num_heads as int,
            ready.config.vocab_size as int,
            dloss,
            dwte,
        );
    let v = before.config.vocab_size as int;
    let n = places(cleared);
    lemma_row_bound(r, i, v, n);
    let j = r * v + i;
    let z = ready.grads_acts.logits;
    assert(z.len() == n * v);
    assert(evals(nought(), z[j]));
    let x = row(after.grads_acts.logits, r, v);
    let probs = row(after.acts.probs, r, v);
    assert(logits_carried_back(row(z, r, v), x, dloss, probs, targets[r] as int));
    assert(x[i] == after.grads_acts.logits[j]);
    assert(row(z, r, v)[i] == z[j]);
    assert(probs[i] == after.acts.probs[j]);
    lemma_quoted_factor(
        z[j],
        lit(probs[i]).minus(indicator(i, targets[r] as int)),
        dloss,
        unit().over(Expr::Count(places(cleared) as usize)),
        x[i],
    );
}

} // verus!
