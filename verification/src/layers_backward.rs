//! The gradients of the layers, one at a time.

use vstd::prelude::*;
use vstd::slice::slice_to_vec;

use crate::attention_backward::{attention_backward, attention_carried_back, Gradients};
use crate::buffer::{
    lemma_row_bound, lemma_splice_row, put, row, row_mut, row_of, splice, tail_kept,
};
use crate::gelu::{gelu_backward, gelu_carried_back};
use crate::layernorm::{layer_carried_back, layernorm_backward};
use crate::layers::{
    batch_fits, layer_acts, layer_input, layer_params, layers_parametrised, layers_sized,
    lemma_batch_fits, lemma_layer_bounds, LayerActs, LayerParams,
};
use crate::matmul::{
    bias_carried_back, input_carried_back, matmul_backward_blas, weight_carried_back,
};
use crate::residual::residual_backward;
use crate::scalar::Scalar;
use crate::tensors::{ActivationTensors, Acts, ParameterTensors, Params};

verus! {

/// The gradient `after.residual3` of what left a layer has been carried back to its activations,
/// to its parameters, and to `dres`, the gradient of what entered it.
pub open spec fn layer_gradients<T: Scalar>(
    p: LayerParams<T>,
    a: LayerActs<T>,
    residual: Seq<T>,
    before: LayerActs<T>,
    after: LayerActs<T>,
    dres: Seq<T>,
    pbefore: LayerParams<T>,
    pafter: LayerParams<T>,
    b: int,
    t: int,
    c: int,
    nh: int,
) -> bool {
    let n = b * t;
    // The sum of what entered the second half and what it computed.
    &&& after.fcproj == after.residual3
    &&& input_carried_back(
        before.fch_gelu,
        after.fch_gelu,
        after.fcproj,
        p.fcprojw,
        n,
        4 * c,
        c,
    )
    &&& weight_carried_back(
        pbefore.fcprojw,
        pafter.fcprojw,
        after.fcproj,
        a.fch_gelu,
        n,
        4 * c,
        c,
    )
    &&& bias_carried_back(pbefore.fcprojb, pafter.fcprojb, after.fcproj, n, c)
    &&& gelu_carried_back(before.fch, after.fch, a.fch, after.fch_gelu, n * (4 * c))
    &&& input_carried_back(before.ln2, after.ln2, after.fch, p.fcw, n, c, 4 * c)
    &&& weight_carried_back(pbefore.fcw, pafter.fcw, after.fch, a.ln2, n, c, 4 * c)
    &&& bias_carried_back(pbefore.fcb, pafter.fcb, after.fch, n, 4 * c)
    &&& layer_carried_back(
        after.residual3,
        after.residual2,
        pbefore.ln2w,
        pafter.ln2w,
        pbefore.ln2b,
        pafter.ln2b,
        after.ln2,
        a.residual2,
        p.ln2w,
        a.ln2_mean,
        a.ln2_rstd,
        n,
        c,
    )
    // The sum of what entered the layer and what attention computed.
    &&& after.attproj == after.residual2
    &&& input_carried_back(before.atty, after.atty, after.attproj, p.attprojw, n, c, c)
    &&& weight_carried_back(
        pbefore.attprojw,
        pafter.attprojw,
        after.attproj,
        a.atty,
        n,
        c,
        c,
    )
    &&& bias_carried_back(pbefore.attprojb, pafter.attprojb, after.attproj, n, c)
    &&& attention_carried_back(
        (Gradients { dinp: after.qkv, datt: after.att, dpre: after.preatt }),
        after.atty,
        a.qkv,
        a.att,
        b,
        t,
        c,
        nh,
    )
    &&& input_carried_back(before.ln1, after.ln1, after.qkv, p.qkvw, n, c, 3 * c)
    &&& weight_carried_back(pbefore.qkvw, pafter.qkvw, after.qkv, a.ln1, n, c, 3 * c)
    &&& bias_carried_back(pbefore.qkvb, pafter.qkvb, after.qkv, n, 3 * c)
    &&& layer_carried_back(
        after.residual2,
        dres,
        pbefore.ln1w,
        pafter.ln1w,
        pbefore.ln1b,
        pafter.ln1b,
        after.ln1,
        residual,
        p.ln1w,
        a.ln1_mean,
        a.ln1_rstd,
        n,
        c,
    )
    // No gradient is kept for the statistics of a normalisation.
    &&& after.ln1_mean == before.ln1_mean
    &&& after.ln1_rstd == before.ln1_rstd
    &&& after.ln2_mean == before.ln2_mean
    &&& after.ln2_rstd == before.ln2_rstd
}

/// But for the gradient of what left it, the gradients of a layer are the same.
pub open spec fn layer_kept<T>(before: LayerActs<T>, after: LayerActs<T>) -> bool {
    after == (LayerActs { residual3: after.residual3, ..before })
}

/// Of the gradients that belong to no layer, none but that of the embeddings differ, and these
/// only where the first layer was carried back.
pub open spec fn outer_gradients_kept<T>(before: Acts<T>, after: Acts<T>, k: int) -> bool {
    &&& k > 0 ==> after.encoded == before.encoded
    &&& after.encoded.len() == before.encoded.len()
    &&& after.lnf == before.lnf
    &&& after.lnf_mean == before.lnf_mean
    &&& after.lnf_rstd == before.lnf_rstd
    &&& after.logits == before.logits
    &&& after.probs == before.probs
    &&& after.losses == before.losses
}

/// The gradients of the parameters that belong to no layer are the same.
pub open spec fn outer_params_kept<T>(before: Params<T>, after: Params<T>) -> bool {
    &&& after.wte == before.wte
    &&& after.wpe == before.wpe
    &&& after.lnfw == before.lnfw
    &&& after.lnfb == before.lnfb
}

/// What lies behind the parameters of `count` layers is the same.
pub open spec fn param_tails_kept<T>(before: Params<T>, after: Params<T>, count: int, c: int) -> bool {
    &&& tail_kept(before.ln1w, after.ln1w, count * c)
    &&& tail_kept(before.ln1b, after.ln1b, count * c)
    &&& tail_kept(before.qkvw, after.qkvw, count * ((3 * c) * c))
    &&& tail_kept(before.qkvb, after.qkvb, count * (3 * c))
    &&& tail_kept(before.attprojw, after.attprojw, count * (c * c))
    &&& tail_kept(before.attprojb, after.attprojb, count * c)
    &&& tail_kept(before.ln2w, after.ln2w, count * c)
    &&& tail_kept(before.ln2b, after.ln2b, count * c)
    &&& tail_kept(before.fcw, after.fcw, count * ((4 * c) * c))
    &&& tail_kept(before.fcb, after.fcb, count * (4 * c))
    &&& tail_kept(before.fcprojw, after.fcprojw, count * (c * (4 * c)))
    &&& tail_kept(before.fcprojb, after.fcprojb, count * c)
}

/// Replacing the parameters of one layer leaves those of the others as they are.
proof fn lemma_layer_params_kept<T>(
    before: Params<T>,
    after: Params<T>,
    k: int,
    count: int,
    c: int,
    layer: LayerParams<T>,
)
    requires
        0 <= k < count,
        0 <= c,
        layers_parametrised(before, count, c),
        layer.ln1w.len() == c,
        layer.ln1b.len() == c,
        layer.qkvw.len() == (3 * c) * c,
        layer.qkvb.len() == 3 * c,
        layer.attprojw.len() == c * c,
        layer.attprojb.len() == c,
        layer.ln2w.len() == c,
        layer.ln2b.len() == c,
        layer.fcw.len() == (4 * c) * c,
        layer.fcb.len() == 4 * c,
        layer.fcprojw.len() == c * (4 * c),
        layer.fcprojb.len() == c,
        after.ln1w == splice(before.ln1w, k * c, layer.ln1w),
        after.ln1b == splice(before.ln1b, k * c, layer.ln1b),
        after.qkvw == splice(before.qkvw, k * ((3 * c) * c), layer.qkvw),
        after.qkvb == splice(before.qkvb, k * (3 * c), layer.qkvb),
        after.attprojw == splice(before.attprojw, k * (c * c), layer.attprojw),
        after.attprojb == splice(before.attprojb, k * c, layer.attprojb),
        after.ln2w == splice(before.ln2w, k * c, layer.ln2w),
        after.ln2b == splice(before.ln2b, k * c, layer.ln2b),
        after.fcw == splice(before.fcw, k * ((4 * c) * c), layer.fcw),
        after.fcb == splice(before.fcb, k * (4 * c), layer.fcb),
        after.fcprojw == splice(before.fcprojw, k * (c * (4 * c)), layer.fcprojw),
        after.fcprojb == splice(before.fcprojb, k * c, layer.fcprojb),
    ensures
        param_tails_kept(before, after, count, c),
        layer_params(after, k, c) == layer,
        forall|j: int|
            0 <= j < count && j != k ==> #[trigger] layer_params(after, j, c) == layer_params(
                before,
                j,
                c,
            ),
{
    lemma_layer_bounds(k, count, 0, 0, c);
    lemma_splice_row(before.ln1w, k, c, layer.ln1w);
    lemma_splice_row(before.ln1b, k, c, layer.ln1b);
    lemma_splice_row(before.qkvw, k, (3 * c) * c, layer.qkvw);
    lemma_splice_row(before.qkvb, k, 3 * c, layer.qkvb);
    lemma_splice_row(before.attprojw, k, c * c, layer.attprojw);
    lemma_splice_row(before.attprojb, k, c, layer.attprojb);
    lemma_splice_row(before.ln2w, k, c, layer.ln2w);
    lemma_splice_row(before.ln2b, k, c, layer.ln2b);
    lemma_splice_row(before.fcw, k, (4 * c) * c, layer.fcw);
    lemma_splice_row(before.fcb, k, 4 * c, layer.fcb);
    lemma_splice_row(before.fcprojw, k, c * (4 * c), layer.fcprojw);
    lemma_splice_row(before.fcprojb, k, c, layer.fcprojb);
    assert forall|j: int| 0 <= j < count && j != k implies #[trigger] layer_params(after, j, c)
        == layer_params(before, j, c) by {
        lemma_layer_bounds(j, count, 0, 0, c);
    }
}

/// Replacing the gradients of one layer, and the gradient of what entered it, leaves the others
/// as they are.
proof fn lemma_gradients_kept<T>(
    before: Acts<T>,
    after: Acts<T>,
    k: int,
    count: int,
    n: int,
    q: int,
    c: int,
    layer: LayerActs<T>,
    dres: Seq<T>,
)
    requires
        0 <= k < count,
        0 <= n,
        0 <= q,
        0 <= c,
        layers_sized(before, count, n, q, c),
        before.encoded.len() == n * c,
        layer.residual3 == row(before.residual3, k, n * c),
        dres.len() == n * c,
        layer.ln1.len() == n * c,
        layer.ln1_mean.len() == n,
        layer.ln1_rstd.len() == n,
        layer.qkv.len() == n * (3 * c),
        layer.atty.len() == n * c,
        layer.preatt.len() == q,
        layer.att.len() == q,
        layer.attproj.len() == n * c,
        layer.residual2.len() == n * c,
        layer.ln2.len() == n * c,
        layer.ln2_mean.len() == n,
        layer.ln2_rstd.len() == n,
        layer.fch.len() == n * (4 * c),
        layer.fch_gelu.len() == n * (4 * c),
        layer.fcproj.len() == n * c,
        after.ln1 == splice(before.ln1, k * (n * c), layer.ln1),
        after.ln1_mean == splice(before.ln1_mean, k * n, layer.ln1_mean),
        after.ln1_rstd == splice(before.ln1_rstd, k * n, layer.ln1_rstd),
        after.qkv == splice(before.qkv, k * (n * (3 * c)), layer.qkv),
        after.atty == splice(before.atty, k * (n * c), layer.atty),
        after.preatt == splice(before.preatt, k * q, layer.preatt),
        after.att == splice(before.att, k * q, layer.att),
        after.attproj == splice(before.attproj, k * (n * c), layer.attproj),
        after.residual2 == splice(before.residual2, k * (n * c), layer.residual2),
        after.ln2 == splice(before.ln2, k * (n * c), layer.ln2),
        after.ln2_mean == splice(before.ln2_mean, k * n, layer.ln2_mean),
        after.ln2_rstd == splice(before.ln2_rstd, k * n, layer.ln2_rstd),
        after.fch == splice(before.fch, k * (n * (4 * c)), layer.fch),
        after.fch_gelu == splice(before.fch_gelu, k * (n * (4 * c)), layer.fch_gelu),
        after.fcproj == splice(before.fcproj, k * (n * c), layer.fcproj),
        k == 0 ==> after.encoded == splice(before.encoded, 0, dres) && after.residual3
            == before.residual3,
        k > 0 ==> after.residual3 == splice(before.residual3, (k - 1) * (n * c), dres),
    ensures
        layers_sized(after, count, n, q, c),
        layer_acts(after, k, n, q, c) == layer,
        layer_input(after, k, n, c) == dres,
        forall|j: int|
            0 <= j < count && j != k ==> layer_kept(
                layer_acts(before, j, n, q, c),
                #[trigger] layer_acts(after, j, n, q, c),
            ),
        forall|j: int|
            0 <= j < count && j != k - 1 ==> #[trigger] row(after.residual3, j, n * c) == row(
                before.residual3,
                j,
                n * c,
            ),
{
    lemma_layer_bounds(k, count, n, q, c);
    lemma_splice_row(before.ln1, k, n * c, layer.ln1);
    lemma_splice_row(before.ln1_mean, k, n, layer.ln1_mean);
    lemma_splice_row(before.ln1_rstd, k, n, layer.ln1_rstd);
    lemma_splice_row(before.qkv, k, n * (3 * c), layer.qkv);
    lemma_splice_row(before.atty, k, n * c, layer.atty);
    lemma_splice_row(before.preatt, k, q, layer.preatt);
    lemma_splice_row(before.att, k, q, layer.att);
    lemma_splice_row(before.attproj, k, n * c, layer.attproj);
    lemma_splice_row(before.residual2, k, n * c, layer.residual2);
    lemma_splice_row(before.ln2, k, n * c, layer.ln2);
    lemma_splice_row(before.ln2_mean, k, n, layer.ln2_mean);
    lemma_splice_row(before.ln2_rstd, k, n, layer.ln2_rstd);
    lemma_splice_row(before.fch, k, n * (4 * c), layer.fch);
    lemma_splice_row(before.fch_gelu, k, n * (4 * c), layer.fch_gelu);
    lemma_splice_row(before.fcproj, k, n * c, layer.fcproj);
    if k > 0 {
        lemma_layer_bounds(k - 1, count, n, q, c);
        lemma_splice_row(before.residual3, k - 1, n * c, dres);
    } else {
        assert(after.encoded =~= dres);
    }
    assert forall|j: int| 0 <= j < count && j != k - 1 implies #[trigger] row(
        after.residual3,
        j,
        n * c,
    ) == row(before.residual3, j, n * c) by {
        lemma_layer_bounds(j, count, n, q, c);
    }
    assert forall|j: int| 0 <= j < count && j != k implies layer_kept(
        layer_acts(before, j, n, q, c),
        #[trigger] layer_acts(after, j, n, q, c),
    ) by {
        lemma_layer_bounds(j, count, n, q, c);
    }
}

/// A row in its own place changes nothing.
proof fn lemma_row_put_back<A>(s: Seq<A>, r: int, c: int)
    requires
        0 <= r,
        0 <= c,
        (r + 1) * c <= s.len(),
    ensures
        splice(s, r * c, row(s, r, c)) == s,
{
    lemma_row_bound(r, c, c, r + 1);
    assert(splice(s, r * c, row(s, r, c)) =~= s);
}

/// Carries the gradients back through layer `k`.
pub fn backward_layer<T: Scalar>(
    grads: &mut ParameterTensors<T>,
    dacts: &mut ActivationTensors<T>,
    params: &ParameterTensors<T>,
    acts: &ActivationTensors<T>,
    k: usize,
    count: usize,
    b: usize,
    t: usize,
    c: usize,
    nh: usize,
)
    requires
        k < count,
        layers_parametrised(params@, count as int, c as int),
        layers_parametrised(old(grads)@, count as int, c as int),
        layers_sized(acts@, count as int, b * t, (b * nh) * (t * t), c as int),
        layers_sized(old(dacts)@, count as int, b * t, (b * nh) * (t * t), c as int),
        acts@.encoded.len() == (b * t) * c,
        old(dacts)@.encoded.len() == (b * t) * c,
        batch_fits(b as int, t as int, c as int, nh as int, b * t, (b * nh) * (t * t)),
    ensures
        param_tails_kept(old(grads)@, final(grads)@, count as int, c as int),
        layers_sized(final(dacts)@, count as int, b * t, (b * nh) * (t * t), c as int),
        outer_params_kept(old(grads)@, final(grads)@),
        outer_gradients_kept(old(dacts)@, final(dacts)@, k as int),
        layer_gradients(
            layer_params(params@, k as int, c as int),
            layer_acts(acts@, k as int, b * t, (b * nh) * (t * t), c as int),
            layer_input(acts@, k as int, b * t, c as int),
            layer_acts(old(dacts)@, k as int, b * t, (b * nh) * (t * t), c as int),
            layer_acts(final(dacts)@, k as int, b * t, (b * nh) * (t * t), c as int),
            layer_input(final(dacts)@, k as int, b * t, c as int),
            layer_params(old(grads)@, k as int, c as int),
            layer_params(final(grads)@, k as int, c as int),
            b as int,
            t as int,
            c as int,
            nh as int,
        ),
        forall|j: int|
            0 <= j < count && j != k ==> #[trigger] layer_params(final(grads)@, j, c as int)
                == layer_params(old(grads)@, j, c as int),
        forall|j: int|
            0 <= j < count && j != k ==> layer_kept(
                layer_acts(old(dacts)@, j, b * t, (b * nh) * (t * t), c as int),
                #[trigger] layer_acts(
                    final(dacts)@,
                    j,
                    b * t,
                    (b * nh) * (t * t),
                    c as int,
                ),
            ),
        forall|j: int|
            0 <= j < count && j != k - 1 ==> #[trigger] row(
                final(dacts)@.residual3,
                j,
                (b * t) * c,
            ) == row(old(dacts)@.residual3, j, (b * t) * c),
{
    let ghost before = dacts@;
    let ghost pbefore = grads@;
    let ghost gn: int = b * t;
    let ghost gq: int = (b * nh) * (t * t);
    proof {
        lemma_batch_fits(b as int, t as int, c as int, nh as int, gn, gq);
        lemma_layer_bounds(k as int, count as int, gn, gq, c as int);
        assert(acts.ln1.len() == acts@.ln1.len());
        assert(acts.qkv.len() == acts@.qkv.len());
        assert(acts.fch.len() == acts@.fch.len());
        assert(acts.att.len() == acts@.att.len());
        assert(params.attprojw.len() == params@.attprojw.len());
        assert(params.qkvw.len() == params@.qkvw.len());
        assert(params.fcw.len() == params@.fcw.len());
        assert(params.fcprojw.len() == params@.fcprojw.len());
        if k > 0 {
            lemma_layer_bounds(k - 1, count as int, gn, gq, c as int);
        }
        assert((0 < b * nh ==> t * t <= gq) && (b == 0 ==> gq == 0) && (b > 0 ==> 0 < b * nh))
            by (nonlinear_arith)
            requires
                gq == (b * nh) * (t * t),
                0 <= b,
                0 < nh,
                0 <= t,
        ;
    }
    let n: usize = b * t;
    let q: usize = if b == 0 {
        0
    } else {
        b * nh * (t * t)
    };
    let c3: usize = 3 * c;
    let c4: usize = 4 * c;
    let nc: usize = n * c;
    let nc3: usize = n * c3;
    let nc4: usize = n * c4;
    let residual = if k == 0 {
        acts.encoded.as_slice()
    } else {
        row_of(&acts.residual3, k - 1, nc)
    };
    let mut dres = if k == 0 {
        slice_to_vec(&dacts.encoded)
    } else {
        slice_to_vec(row_of(&dacts.residual3, k - 1, nc))
    };
    let dresidual3 = slice_to_vec(row_of(&dacts.residual3, k, nc));
    let dln1 = row_mut(&mut dacts.ln1, k, nc);
    let dqkv = row_mut(&mut dacts.qkv, k, nc3);
    let datty = row_mut(&mut dacts.atty, k, nc);
    let dpreatt = row_mut(&mut dacts.preatt, k, q);
    let datt = row_mut(&mut dacts.att, k, q);
    let dattproj = row_mut(&mut dacts.attproj, k, nc);
    let dresidual2 = row_mut(&mut dacts.residual2, k, nc);
    let dln2 = row_mut(&mut dacts.ln2, k, nc);
    let dfch = row_mut(&mut dacts.fch, k, nc4);
    let dfch_gelu = row_mut(&mut dacts.fch_gelu, k, nc4);
    let dfcproj = row_mut(&mut dacts.fcproj, k, nc);
    let dln1w = row_mut(&mut grads.ln1w, k, c);
    let dln1b = row_mut(&mut grads.ln1b, k, c);
    let dqkvw = row_mut(&mut grads.qkvw, k, c3 * c);
    let dqkvb = row_mut(&mut grads.qkvb, k, c3);
    let dattprojw = row_mut(&mut grads.attprojw, k, c * c);
    let dattprojb = row_mut(&mut grads.attprojb, k, c);
    let dln2w = row_mut(&mut grads.ln2w, k, c);
    let dln2b = row_mut(&mut grads.ln2b, k, c);
    let dfcw = row_mut(&mut grads.fcw, k, c4 * c);
    let dfcb = row_mut(&mut grads.fcb, k, c4);
    let dfcprojw = row_mut(&mut grads.fcprojw, k, c * c4);
    let dfcprojb = row_mut(&mut grads.fcprojb, k, c);
    residual_backward(dresidual2, dfcproj, &dresidual3, nc);
    assert(dresidual2@ =~= dresidual3@);
    assert(dfcproj@ =~= dresidual3@);
    matmul_backward_blas(
        dfch_gelu,
        dfcprojw,
        Some(&mut *dfcprojb),
        dfcproj,
        row_of(&acts.fch_gelu, k, nc4),
        row_of(&params.fcprojw, k, c * c4),
        b,
        t,
        c4,
        c,
    );
    gelu_backward(dfch, row_of(&acts.fch, k, nc4), dfch_gelu, nc4);
    matmul_backward_blas(
        dln2,
        dfcw,
        Some(&mut *dfcb),
        dfch,
        row_of(&acts.ln2, k, nc),
        row_of(&params.fcw, k, c4 * c),
        b,
        t,
        c,
        c4,
    );
    layernorm_backward(
        dresidual2,
        dln2w,
        dln2b,
        dln2,
        row_of(&acts.residual2, k, nc),
        row_of(&params.ln2w, k, c),
        row_of(&acts.ln2_mean, k, n),
        row_of(&acts.ln2_rstd, k, n),
        b,
        t,
        c,
    );
    residual_backward(&mut dres, dattproj, dresidual2, nc);
    assert(dres@ =~= dresidual2@);
    assert(dattproj@ =~= dresidual2@);
    matmul_backward_blas(
        datty,
        dattprojw,
        Some(&mut *dattprojb),
        dattproj,
        row_of(&acts.atty, k, nc),
        row_of(&params.attprojw, k, c * c),
        b,
        t,
        c,
        c,
    );
    attention_backward(
        dqkv,
        dpreatt,
        datt,
        datty,
        row_of(&acts.qkv, k, nc3),
        row_of(&acts.att, k, q),
        b,
        t,
        c,
        nh,
    );
    matmul_backward_blas(
        dln1,
        dqkvw,
        Some(&mut *dqkvb),
        dqkv,
        row_of(&acts.ln1, k, nc),
        row_of(&params.qkvw, k, c3 * c),
        b,
        t,
        c,
        c3,
    );
    layernorm_backward(
        &mut dres,
        dln1w,
        dln1b,
        dln1,
        residual,
        row_of(&params.ln1w, k, c),
        row_of(&acts.ln1_mean, k, n),
        row_of(&acts.ln1_rstd, k, n),
        b,
        t,
        c,
    );
    let ghost layer = LayerActs {
        ln1: dln1@,
        ln1_mean: row(before.ln1_mean, k as int, gn),
        ln1_rstd: row(before.ln1_rstd, k as int, gn),
        qkv: dqkv@,
        atty: datty@,
        preatt: dpreatt@,
        att: datt@,
        attproj: dattproj@,
        residual2: dresidual2@,
        ln2: dln2@,
        ln2_mean: row(before.ln2_mean, k as int, gn),
        ln2_rstd: row(before.ln2_rstd, k as int, gn),
        fch: dfch@,
        fch_gelu: dfch_gelu@,
        fcproj: dfcproj@,
        residual3: dresidual3@,
    };
    let ghost player = LayerParams {
        ln1w: dln1w@,
        ln1b: dln1b@,
        qkvw: dqkvw@,
        qkvb: dqkvb@,
        attprojw: dattprojw@,
        attprojb: dattprojb@,
        ln2w: dln2w@,
        ln2b: dln2b@,
        fcw: dfcw@,
        fcb: dfcb@,
        fcprojw: dfcprojw@,
        fcprojb: dfcprojb@,
    };
    if k == 0 {
        put(&mut dacts.encoded, 0, &dres);
    } else {
        put(&mut dacts.residual3, (k - 1) * nc, &dres);
    }
    proof {
        lemma_layer_params_kept(
            pbefore,
            grads@,
            k as int,
            count as int,
            c as int,
            player,
        );
        lemma_row_put_back(before.ln1_mean, k as int, gn);
        lemma_row_put_back(before.ln1_rstd, k as int, gn);
        lemma_row_put_back(before.ln2_mean, k as int, gn);
        lemma_row_put_back(before.ln2_rstd, k as int, gn);
        lemma_gradients_kept(
            before,
            dacts@,
            k as int,
            count as int,
            gn,
            gq,
            c as int,
            layer,
            dres@,
        );
    }
}

} // verus!
