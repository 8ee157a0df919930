//! The forward pass is causal.

use vstd::prelude::*;

use crate::attention_laws::{lemma_attention_agrees, lemma_place_row, sequence_agrees};
use crate::buffer::{cell, lemma_row_bound, row};
use crate::determinism::{
    functional, lemma_acts_resized_once, lemma_encoded_row, lemma_gelu_row, lemma_normalised_row,
    lemma_one_softmax, lemma_projected_row, lemma_residual_row, product_shaped, rowwise,
};
use crate::forward::{batch_computed, can_forward, layers_computed, room_made};
use crate::layers::{
    batch_fits, layer_acts, layer_computed, layer_input, layer_params, layers_parametrised,
    layers_sized, lemma_batch_fits, lemma_layer_bounds, LayerActs, LayerParams,
};
use crate::matmul::projected;
use crate::model::Model;
use crate::scalar::Scalar;
use crate::tensors::{lemma_acts_fit, Acts, Params};

verus! {

/// Two buffers of rows of `w` elements, one for each of `t` places in each sequence, agree up to
/// place `k` of sequence `s`.
pub open spec fn places_agree<T>(
    x: Seq<T>,
    y: Seq<T>,
    w: int,
    s: int,
    t: int,
    k: int,
) -> bool {
    forall|p: int|
        0 <= p <= k ==> row(x, #[trigger] cell(s, t, p), w) == row(y, cell(s, t, p), w)
}

/// Projections agree where their inputs do.
proof fn lemma_projected_places<T: Scalar>(
    out0: Seq<T>,
    out1: Seq<T>,
    inp1: Seq<T>,
    out2: Seq<T>,
    inp2: Seq<T>,
    weight: Seq<T>,
    bias: Option<Seq<T>>,
    b: int,
    t: int,
    c: int,
    oc: int,
    s: int,
    k: int,
)
    requires
        functional::<T>(),
        rowwise::<T>(),
        projected(out0, out1, inp1, weight, bias, b * t, c, oc),
        projected(out0, out2, inp2, weight, bias, b * t, c, oc),
        product_shaped(b * t, oc, c, inp1, weight),
        product_shaped(b * t, oc, c, inp2, weight),
        (b * t) * oc <= out0.len(),
        0 <= s < b,
        0 <= k < t,
        places_agree(inp1, inp2, c, s, t, k),
    ensures
        places_agree(out1, out2, oc, s, t, k),
{
    assert forall|p: int| 0 <= p <= k implies row(
        out1,
        #[trigger] cell(s, t, p),
        oc,
    ) == row(out2, cell(s, t, p), oc) by {
        lemma_row_bound(s, p, t, b);
        lemma_projected_row(
            out0,
            out1,
            inp1,
            out0,
            out2,
            inp2,
            weight,
            bias,
            b * t,
            c,
            oc,
            cell(s, t, p),
        );
    }
}

/// The tensors of a layer have the sizes for `n` places and `q` attention weights.
pub open spec fn layer_shaped<T>(
    p: LayerParams<T>,
    a: LayerActs<T>,
    n: int,
    q: int,
    c: int,
) -> bool {
    &&& p.qkvw.len() == (3 * c) * c
    &&& p.attprojw.len() == c * c
    &&& p.fcw.len() == (4 * c) * c
    &&& p.fcprojw.len() == c * (4 * c)
    &&& a.ln1.len() == n * c
    &&& a.qkv.len() == n * (3 * c)
    &&& a.atty.len() == n * c
    &&& a.attproj.len() == n * c
    &&& a.residual2.len() == n * c
    &&& a.ln2.len() == n * c
    &&& a.fch.len() == n * (4 * c)
    &&& a.fch_gelu.len() == n * (4 * c)
    &&& a.fcproj.len() == n * c
    &&& a.residual3.len() == n * c
}

/// What leaves the attention of a layer agrees where what enters the layer does.
proof fn lemma_attention_half<T: Scalar>(
    p: LayerParams<T>,
    res1: Seq<T>,
    res2: Seq<T>,
    before: LayerActs<T>,
    a1: LayerActs<T>,
    a2: LayerActs<T>,
    q: int,
    b: int,
    t: int,
    c: int,
    nh: int,
    s: int,
    k: int,
)
    requires
        functional::<T>(),
        rowwise::<T>(),
        batch_fits(b, t, c, nh, b * t, q),
        layer_computed(p, res1, before, a1, b, t, c, nh),
        layer_computed(p, res2, before, a2, b, t, c, nh),
        layer_shaped(p, before, b * t, q, c),
        layer_shaped(p, a1, b * t, q, c),
        layer_shaped(p, a2, b * t, q, c),
        res1.len() == (b * t) * c,
        res2.len() == (b * t) * c,
        0 <= s < b,
        0 <= k < t,
        places_agree(res1, res2, c, s, t, k),
    ensures
        places_agree(a1.residual2, a2.residual2, c, s, t, k),
{
    let n = b * t;
    lemma_batch_fits(b, t, c, nh, n, q);
    assert forall|i: int| 0 <= i <= k implies row(
        a1.ln1,
        #[trigger] cell(s, t, i),
        c,
    ) == row(a2.ln1, cell(s, t, i), c) by {
        lemma_row_bound(s, i, t, b);
        lemma_normalised_row(
            before.ln1,
            a1.ln1,
            before.ln1_mean,
            a1.ln1_mean,
            before.ln1_rstd,
            a1.ln1_rstd,
            res1,
            before.ln1,
            a2.ln1,
            before.ln1_mean,
            a2.ln1_mean,
            before.ln1_rstd,
            a2.ln1_rstd,
            res2,
            p.ln1w,
            p.ln1b,
            n,
            c,
            cell(s, t, i),
        );
    }
    assert(c * (3 * c) == (3 * c) * c) by (nonlinear_arith);
    lemma_projected_places(
        before.qkv,
        a1.qkv,
        a1.ln1,
        a2.qkv,
        a2.ln1,
        p.qkvw,
        Some(p.qkvb),
        b,
        t,
        c,
        3 * c,
        s,
        k,
    );
    assert forall|i: int| 0 <= i <= k implies row(
        a1.atty,
        #[trigger] cell(s, t, i),
        c,
    ) == row(a2.atty, cell(s, t, i), c) by {
        assert forall|j: int| 0 <= j <= i implies #[trigger] row(
            row(a1.qkv, s, t * (3 * c)),
            j,
            3 * c,
        ) == row(row(a2.qkv, s, t * (3 * c)), j, 3 * c) by {
            lemma_place_row(a1.qkv, b, t, 3 * c, s, j);
            lemma_place_row(a2.qkv, b, t, 3 * c, s, j);
            assert(row(a1.qkv, cell(s, t, j), 3 * c) == row(a2.qkv, cell(s, t, j), 3 * c));
        }
        assert(sequence_agrees(a1.qkv, a2.qkv, s, i, t, c));
        lemma_attention_agrees(
            before.atty,
            a1.atty,
            before.preatt,
            a1.preatt,
            before.att,
            a1.att,
            a1.qkv,
            before.atty,
            a2.atty,
            before.preatt,
            a2.preatt,
            before.att,
            a2.att,
            a2.qkv,
            b,
            t,
            c,
            nh,
            s,
            i,
        );
    }
    lemma_projected_places(
        before.attproj,
        a1.attproj,
        a1.atty,
        a2.attproj,
        a2.atty,
        p.attprojw,
        Some(p.attprojb),
        b,
        t,
        c,
        c,
        s,
        k,
    );
    assert forall|i: int| 0 <= i <= k implies row(
        a1.residual2,
        #[trigger] cell(s, t, i),
        c,
    ) == row(a2.residual2, cell(s, t, i), c) by {
        lemma_row_bound(s, i, t, b);
        lemma_residual_row(
            before.residual2,
            a1.residual2,
            res1,
            a1.attproj,
            before.residual2,
            a2.residual2,
            res2,
            a2.attproj,
            n,
            c,
            cell(s, t, i),
        );
    }
}

/// What leaves a layer agrees where what leaves its attention does.
proof fn lemma_feed_forward_half<T: Scalar>(
    p: LayerParams<T>,
    res1: Seq<T>,
    res2: Seq<T>,
    before: LayerActs<T>,
    a1: LayerActs<T>,
    a2: LayerActs<T>,
    q: int,
    b: int,
    t: int,
    c: int,
    nh: int,
    s: int,
    k: int,
)
    requires
        functional::<T>(),
        rowwise::<T>(),
        batch_fits(b, t, c, nh, b * t, q),
        layer_computed(p, res1, before, a1, b, t, c, nh),
        layer_computed(p, res2, before, a2, b, t, c, nh),
        layer_shaped(p, before, b * t, q, c),
        layer_shaped(p, a1, b * t, q, c),
        layer_shaped(p, a2, b * t, q, c),
        0 <= s < b,
        0 <= k < t,
        places_agree(a1.residual2, a2.residual2, c, s, t, k),
    ensures
        places_agree(a1.residual3, a2.residual3, c, s, t, k),
{
    let n = b * t;
    lemma_batch_fits(b, t, c, nh, n, q);
    assert forall|i: int| 0 <= i <= k implies row(
        a1.ln2,
        #[trigger] cell(s, t, i),
        c,
    ) == row(a2.ln2, cell(s, t, i), c) by {
        lemma_row_bound(s, i, t, b);
        lemma_normalised_row(
            before.ln2,
            a1.ln2,
            before.ln2_mean,
            a1.ln2_mean,
            before.ln2_rstd,
            a1.ln2_rstd,
            a1.residual2,
            before.ln2,
            a2.ln2,
            before.ln2_mean,
            a2.ln2_mean,
            before.ln2_rstd,
            a2.ln2_rstd,
            a2.residual2,
            p.ln2w,
            p.ln2b,
            n,
            c,
            cell(s, t, i),
        );
    }
    assert(c * (4 * c) == (4 * c) * c) by (nonlinear_arith);
    lemma_projected_places(
        before.fch,
        a1.fch,
        a1.ln2,
        a2.fch,
        a2.ln2,
        p.fcw,
        Some(p.fcb),
        b,
        t,
        c,
        4 * c,
        s,
        k,
    );
    assert forall|i: int| 0 <= i <= k implies row(
        a1.fch_gelu,
        #[trigger] cell(s, t, i),
        4 * c,
    ) == row(a2.fch_gelu, cell(s, t, i), 4 * c) by {
        lemma_row_bound(s, i, t, b);
        lemma_gelu_row(
            before.fch_gelu,
            a1.fch_gelu,
            a1.fch,
            before.fch_gelu,
            a2.fch_gelu,
            a2.fch,
            n,
            4 * c,
            cell(s, t, i),
        );
    }
    lemma_projected_places(
        before.fcproj,
        a1.fcproj,
        a1.fch_gelu,
        a2.fcproj,
        a2.fch_gelu,
        p.fcprojw,
        Some(p.fcprojb),
        b,
        t,
        4 * c,
        c,
        s,
        k,
    );
    assert forall|i: int| 0 <= i <= k implies row(
        a1.residual3,
        #[trigger] cell(s, t, i),
        c,
    ) == row(a2.residual3, cell(s, t, i), c) by {
        lemma_row_bound(s, i, t, b);
        lemma_residual_row(
            before.residual3,
            a1.residual3,
            a1.residual2,
            a1.fcproj,
            before.residual3,
            a2.residual3,
            a2.residual2,
            a2.fcproj,
            n,
            c,
            cell(s, t, i),
        );
    }
}

/// What enters layer `m`, or leaves the last layer, agrees where the embeddings do.
proof fn lemma_layers_causal<T: Scalar>(
    p: Params<T>,
    before: Acts<T>,
    a1: Acts<T>,
    a2: Acts<T>,
    count: int,
    q: int,
    b: int,
    t: int,
    c: int,
    nh: int,
    s: int,
    k: int,
    m: int,
)
    requires
        functional::<T>(),
        rowwise::<T>(),
        0 <= m <= count,
        0 <= q,
        batch_fits(b, t, c, nh, b * t, q),
        layers_parametrised(p, count, c),
        layers_sized(before, count, b * t, q, c),
        layers_sized(a1, count, b * t, q, c),
        layers_sized(a2, count, b * t, q, c),
        layers_computed(p, before, a1, count, b * t, q, b, t, c, nh),
        layers_computed(p, before, a2, count, b * t, q, b, t, c, nh),
        a1.encoded.len() == (b * t) * c,
        a2.encoded.len() == (b * t) * c,
        0 <= s < b,
        0 <= k < t,
        places_agree(a1.encoded, a2.encoded, c, s, t, k),
    ensures
        layer_input(a1, m, b * t, c).len() == (b * t) * c,
        layer_input(a2, m, b * t, c).len() == (b * t) * c,
        places_agree(
            layer_input(a1, m, b * t, c),
            layer_input(a2, m, b * t, c),
            c,
            s,
            t,
            k,
        ),
    decreases m,
{
    if m > 0 {
        let j = m - 1;
        let n = b * t;
        lemma_batch_fits(b, t, c, nh, n, q);
        lemma_layers_causal(p, before, a1, a2, count, q, b, t, c, nh, s, k, j);
        lemma_layer_bounds(j, count, n, q, c);
        let pj = layer_params(p, j, c);
        let bj = layer_acts(before, j, n, q, c);
        let x = layer_acts(a1, j, n, q, c);
        let y = layer_acts(a2, j, n, q, c);
        let res1 = layer_input(a1, j, n, c);
        let res2 = layer_input(a2, j, n, c);
        assert(layer_computed(pj, res1, bj, x, b, t, c, nh));
        assert(layer_computed(pj, res2, bj, y, b, t, c, nh));
        lemma_attention_half(pj, res1, res2, bj, x, y, q, b, t, c, nh, s, k);
        lemma_feed_forward_half(pj, res1, res2, bj, x, y, q, b, t, c, nh, s, k);
    }
}

/// The inputs of two batches of sequences of `t` tokens agree up to place `k` of sequence `s`.
pub open spec fn tokens_agree(x: Seq<i32>, y: Seq<i32>, s: int, t: int, k: int) -> bool {
    forall|p: int| 0 <= p <= k ==> x[#[trigger] cell(s, t, p)] == y[cell(s, t, p)]
}

/// The forward pass is causal, and keeps sequences apart: where the operations of the scalar type
/// are functions, and a row of a matrix product depends on no other row, two batches that agree up
/// to place `k` of a sequence give the same probabilities up to there. No place sees a later token
/// of its sequence, and no sequence sees another.
pub proof fn lemma_forward_causal<T: Scalar>(
    before: Model<T>,
    ready1: Model<T>,
    after1: Model<T>,
    inputs1: Seq<i32>,
    targets1: Option<Seq<i32>>,
    ready2: Model<T>,
    after2: Model<T>,
    inputs2: Seq<i32>,
    targets2: Option<Seq<i32>>,
    b: usize,
    t: usize,
    s: int,
    k: int,
)
    requires
        functional::<T>(),
        rowwise::<T>(),
        before.acts_memory.len() == 0,
        can_forward(before, inputs1, targets1, b, t),
        can_forward(before, inputs2, targets2, b, t),
        room_made(before, ready1, b, t),
        batch_computed(ready1, after1, inputs1, targets1, b, t),
        room_made(before, ready2, b, t),
        batch_computed(ready2, after2, inputs2, targets2, b, t),
        0 <= s < b,
        0 <= k < t,
        tokens_agree(inputs1, inputs2, s, t as int, k),
    ensures
        places_agree(
            after1.acts.probs,
            after2.acts.probs,
            before.config.vocab_size as int,
            s,
            t as int,
            k,
        ),
{
    let (gb, gt) = (b as int, t as int);
    let l = before.config.num_layers as int;
    let nh = before.config.num_heads as int;
    let c = before.config.channels as int;
    let v = before.config.vocab_size as int;
    let n = gb * gt;
    let q = (gb * nh) * (gt * gt);
    lemma_acts_resized_once(before.acts, ready1.acts, ready2.acts, gb, gt, l, nh, c, v);
    let a0 = ready1.acts;
    let (a1, a2) = (after1.acts, after2.acts);
    let p = before.params;
    lemma_acts_fit(gb, gt, l, nh, c, v);
    assert(batch_fits(gb, gt, c, nh, n, q));
    lemma_batch_fits(gb, gt, c, nh, n, q);
    assert forall|i: int| 0 <= i <= k implies row(
        a1.encoded,
        #[trigger] cell(s, gt, i),
        c,
    ) == row(a2.encoded, cell(s, gt, i), c) by {
        lemma_row_bound(s, i, gt, gb);
        lemma_encoded_row(
            a0.encoded,
            a1.encoded,
            inputs1,
            a0.encoded,
            a2.encoded,
            inputs2,
            p.wte,
            p.wpe,
            n,
            gt,
            c,
            cell(s, gt, i),
        );
    }
    lemma_layers_causal(p, a0, a1, a2, l, q, gb, gt, c, nh, s, k, l);
    let res1 = row(a1.residual3, l - 1, n * c);
    let res2 = row(a2.residual3, l - 1, n * c);
    assert forall|i: int| 0 <= i <= k implies row(
        a1.lnf,
        #[trigger] cell(s, gt, i),
        c,
    ) == row(a2.lnf, cell(s, gt, i), c) by {
        lemma_row_bound(s, i, gt, gb);
        assert(row(res1, cell(s, gt, i), c) == row(res2, cell(s, gt, i), c));
        lemma_normalised_row(
            a0.lnf,
            a1.lnf,
            a0.lnf_mean,
            a1.lnf_mean,
            a0.lnf_rstd,
            a1.lnf_rstd,
            res1,
            a0.lnf,
            a2.lnf,
            a0.lnf_mean,
            a2.lnf_mean,
            a0.lnf_rstd,
            a2.lnf_rstd,
            res2,
            p.lnfw,
            p.lnfb,
            n,
            c,
            cell(s, gt, i),
        );
    }
    assert(c * v == v * c) by (nonlinear_arith);
    lemma_projected_places(
        a0.logits,
        a1.logits,
        a1.lnf,
        a2.logits,
        a2.lnf,
        p.wte,
        None,
        gb,
        gt,
        c,
        v,
        s,
        k,
    );
    assert forall|i: int| 0 <= i <= k implies row(
        a1.probs,
        #[trigger] cell(s, gt, i),
        v,
    ) == row(a2.probs, cell(s, gt, i), v) by {
        lemma_row_bound(s, i, gt, gb);
        let j = cell(s, gt, i);
        assert(row(a1.logits, j, v) == row(a2.logits, j, v));
        lemma_one_softmax(row(a1.logits, j, v), row(a1.probs, j, v), row(a2.probs, j, v));
    }
}

} // verus!
