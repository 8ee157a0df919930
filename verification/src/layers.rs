//! The layers of the model, one at a time.

use vstd::prelude::*;

use crate::attention::{attention_forward, heads_attend};
use crate::buffer::{lemma_row_bound, lemma_splice_row, row, row_mut, row_of, splice};
use crate::gelu::{gelu_applied, gelu_forward};
use crate::layernorm::{layer_normalised, layernorm_forward};
use crate::matmul::{matmul_forward, projected};
use crate::residual::{residual_forward, residual_sum};
use crate::scalar::Scalar;
use crate::tensors::{ActivationTensors, Acts, ParameterTensors, Params};

verus! {

/// The parameters of one layer.
#[verifier::ext_equal]
pub struct LayerParams<T> {
    pub ln1w: Seq<T>,
    pub ln1b: Seq<T>,
    pub qkvw: Seq<T>,
    pub qkvb: Seq<T>,
    pub attprojw: Seq<T>,
    pub attprojb: Seq<T>,
    pub ln2w: Seq<T>,
    pub ln2b: Seq<T>,
    pub fcw: Seq<T>,
    pub fcb: Seq<T>,
    pub fcprojw: Seq<T>,
    pub fcprojb: Seq<T>,
}

/// The activations of one layer.
#[verifier::ext_equal]
pub struct LayerActs<T> {
    pub ln1: Seq<T>,
    pub ln1_mean: Seq<T>,
    pub ln1_rstd: Seq<T>,
    pub qkv: Seq<T>,
    pub atty: Seq<T>,
    pub preatt: Seq<T>,
    pub att: Seq<T>,
    pub attproj: Seq<T>,
    pub residual2: Seq<T>,
    pub ln2: Seq<T>,
    pub ln2_mean: Seq<T>,
    pub ln2_rstd: Seq<T>,
    pub fch: Seq<T>,
    pub fch_gelu: Seq<T>,
    pub fcproj: Seq<T>,
    pub residual3: Seq<T>,
}

/// The parameters of layer `k` of a model with `c` channels.
pub open spec fn layer_params<T>(p: Params<T>, k: int, c: int) -> LayerParams<T> {
    LayerParams {
        ln1w: row(p.ln1w, k, c),
        ln1b: row(p.ln1b, k, c),
        qkvw: row(p.qkvw, k, (3 * c) * c),
        qkvb: row(p.qkvb, k, 3 * c),
        attprojw: row(p.attprojw, k, c * c),
        attprojb: row(p.attprojb, k, c),
        ln2w: row(p.ln2w, k, c),
        ln2b: row(p.ln2b, k, c),
        fcw: row(p.fcw, k, (4 * c) * c),
        fcb: row(p.fcb, k, 4 * c),
        fcprojw: row(p.fcprojw, k, c * (4 * c)),
        fcprojb: row(p.fcprojb, k, c),
    }
}

/// The activations of layer `k`, with room for `n` places of `c` channels and `q` attention
/// weights in each layer.
pub open spec fn layer_acts<T>(a: Acts<T>, k: int, n: int, q: int, c: int) -> LayerActs<T> {
    LayerActs {
        ln1: row(a.ln1, k, n * c),
        ln1_mean: row(a.ln1_mean, k, n),
        ln1_rstd: row(a.ln1_rstd, k, n),
        qkv: row(a.qkv, k, n * (3 * c)),
        atty: row(a.atty, k, n * c),
        preatt: row(a.preatt, k, q),
        att: row(a.att, k, q),
        attproj: row(a.attproj, k, n * c),
        residual2: row(a.residual2, k, n * c),
        ln2: row(a.ln2, k, n * c),
        ln2_mean: row(a.ln2_mean, k, n),
        ln2_rstd: row(a.ln2_rstd, k, n),
        fch: row(a.fch, k, n * (4 * c)),
        fch_gelu: row(a.fch_gelu, k, n * (4 * c)),
        fcproj: row(a.fcproj, k, n * c),
        residual3: row(a.residual3, k, n * c),
    }
}

/// There are parameters for `count` layers, or more.
pub open spec fn layers_parametrised<T>(p: Params<T>, count: int, c: int) -> bool {
    &&& count * c <= p.ln1w.len()
    &&& count * c <= p.ln1b.len()
    &&& count * ((3 * c) * c) <= p.qkvw.len()
    &&& count * (3 * c) <= p.qkvb.len()
    &&& count * (c * c) <= p.attprojw.len()
    &&& count * c <= p.attprojb.len()
    &&& count * c <= p.ln2w.len()
    &&& count * c <= p.ln2b.len()
    &&& count * ((4 * c) * c) <= p.fcw.len()
    &&& count * (4 * c) <= p.fcb.len()
    &&& count * (c * (4 * c)) <= p.fcprojw.len()
    &&& count * c <= p.fcprojb.len()
}

/// There is room for the activations of `count` layers.
pub open spec fn layers_sized<T>(a: Acts<T>, count: int, n: int, q: int, c: int) -> bool {
    &&& a.ln1.len() == count * (n * c)
    &&& a.ln1_mean.len() == count * n
    &&& a.ln1_rstd.len() == count * n
    &&& a.qkv.len() == count * (n * (3 * c))
    &&& a.atty.len() == count * (n * c)
    &&& a.preatt.len() == count * q
    &&& a.att.len() == count * q
    &&& a.attproj.len() == count * (n * c)
    &&& a.residual2.len() == count * (n * c)
    &&& a.ln2.len() == count * (n * c)
    &&& a.ln2_mean.len() == count * n
    &&& a.ln2_rstd.len() == count * n
    &&& a.fch.len() == count * (n * (4 * c))
    &&& a.fch_gelu.len() == count * (n * (4 * c))
    &&& a.fcproj.len() == count * (n * c)
    &&& a.residual3.len() == count * (n * c)
}

/// The activations that belong to no layer are the same.
pub open spec fn outer_acts_kept<T>(before: Acts<T>, after: Acts<T>) -> bool {
    &&& after.encoded == before.encoded
    &&& after.lnf == before.lnf
    &&& after.lnf_mean == before.lnf_mean
    &&& after.lnf_rstd == before.lnf_rstd
    &&& after.logits == before.logits
    &&& after.probs == before.probs
    &&& after.losses == before.losses
}

/// What enters layer `k`: the embeddings, or what left the layer before.
pub open spec fn layer_input<T>(a: Acts<T>, k: int, n: int, c: int) -> Seq<T> {
    if k == 0 {
        a.encoded
    } else {
        row(a.residual3, k - 1, n * c)
    }
}

/// A layer has been computed on what entered it.
pub open spec fn layer_computed<T: Scalar>(
    p: LayerParams<T>,
    residual: Seq<T>,
    before: LayerActs<T>,
    after: LayerActs<T>,
    b: int,
    t: int,
    c: int,
    nh: int,
) -> bool {
    &&& layer_normalised(
        before.ln1,
        after.ln1,
        before.ln1_mean,
        after.ln1_mean,
        before.ln1_rstd,
        after.ln1_rstd,
        residual,
        p.ln1w,
        p.ln1b,
        b * t,
        c,
    )
    &&& projected(before.qkv, after.qkv, after.ln1, p.qkvw, Some(p.qkvb), b * t, c, 3 * c)
    &&& heads_attend(
        before.atty,
        after.atty,
        before.preatt,
        after.preatt,
        before.att,
        after.att,
        after.qkv,
        b * nh,
        b,
        t,
        c,
        nh,
    )
    &&& projected(
        before.attproj,
        after.attproj,
        after.atty,
        p.attprojw,
        Some(p.attprojb),
        b * t,
        c,
        c,
    )
    &&& residual_sum(before.residual2, after.residual2, residual, after.attproj, (b * t) * c)
    &&& layer_normalised(
        before.ln2,
        after.ln2,
        before.ln2_mean,
        after.ln2_mean,
        before.ln2_rstd,
        after.ln2_rstd,
        after.residual2,
        p.ln2w,
        p.ln2b,
        b * t,
        c,
    )
    &&& projected(before.fch, after.fch, after.ln2, p.fcw, Some(p.fcb), b * t, c, 4 * c)
    &&& gelu_applied(before.fch_gelu, after.fch_gelu, after.fch, (b * t) * (4 * c))
    &&& projected(
        before.fcproj,
        after.fcproj,
        after.fch_gelu,
        p.fcprojw,
        Some(p.fcprojb),
        b * t,
        4 * c,
        c,
    )
    &&& residual_sum(
        before.residual3,
        after.residual3,
        after.residual2,
        after.fcproj,
        (b * t) * c,
    )
}

/// A batch of `b` sequences of `t` tokens can be computed in layers with room for `n` places and
/// `q` attention weights.
pub open spec fn batch_fits(b: int, t: int, c: int, nh: int, n: int, q: int) -> bool {
    &&& 0 < c
    &&& 4 * c <= i32::MAX
    &&& 0 < nh
    &&& 0 <= b
    &&& 0 <= t
    &&& b * t <= i32::MAX
    &&& b * nh <= usize::MAX
    &&& b * t <= n
    &&& (b * nh) * (t * t) <= q
}

/// The rows of a batch lie within the room of a layer.
pub proof fn lemma_batch_fits(b: int, t: int, c: int, nh: int, n: int, q: int)
    requires
        batch_fits(b, t, c, nh, n, q),
    ensures
        0 <= b * t,
        0 <= (b * t) * c <= n * c,
        0 <= (b * t) * (3 * c) <= n * (3 * c),
        0 <= (b * t) * (4 * c) <= n * (4 * c),
        b * (t * c) == (b * t) * c,
        b * (t * (3 * c)) == (b * t) * (3 * c),
        b > 0 ==> t <= i32::MAX,
        0 < c / nh ==> c / nh <= c,
{
    assert(b > 0 ==> t <= b * t) by (nonlinear_arith)
        requires
            0 <= b,
            0 <= t,
    ;
    assert(0 < c / nh ==> c / nh <= c) by (nonlinear_arith)
        requires
            0 < nh,
            0 < c,
    ;
    assert(0 <= b * t) by (nonlinear_arith)
        requires
            0 <= b,
            0 <= t,
    ;
    let m = b * t;
    assert(0 <= m * c <= n * c) by (nonlinear_arith)
        requires
            0 <= m <= n,
            0 < c,
    ;
    assert(0 <= m * (3 * c) <= n * (3 * c)) by (nonlinear_arith)
        requires
            0 <= m <= n,
            0 < c,
    ;
    assert(0 <= m * (4 * c) <= n * (4 * c)) by (nonlinear_arith)
        requires
            0 <= m <= n,
            0 < c,
    ;
    assert(b * (t * c) == (b * t) * c) by (nonlinear_arith);
    assert(b * (t * (3 * c)) == (b * t) * (3 * c)) by (nonlinear_arith);
}

/// Where the rows of a layer lie.
pub proof fn lemma_layer_bounds(k: int, count: int, n: int, q: int, c: int)
    requires
        0 <= k < count,
        0 <= n,
        0 <= q,
        0 <= c,
    ensures
        0 <= c,
        c <= (k + 1) * c <= count * c,
        k * c + c == (k + 1) * c,
        0 <= (3 * c) * c,
        ((3 * c) * c) <= (k + 1) * ((3 * c) * c) <= count * ((3 * c) * c),
        k * ((3 * c) * c) + ((3 * c) * c) == (k + 1) * ((3 * c) * c),
        0 <= 3 * c,
        (3 * c) <= (k + 1) * (3 * c) <= count * (3 * c),
        k * (3 * c) + (3 * c) == (k + 1) * (3 * c),
        0 <= c * c,
        (c * c) <= (k + 1) * (c * c) <= count * (c * c),
        k * (c * c) + (c * c) == (k + 1) * (c * c),
        0 <= (4 * c) * c,
        ((4 * c) * c) <= (k + 1) * ((4 * c) * c) <= count * ((4 * c) * c),
        k * ((4 * c) * c) + ((4 * c) * c) == (k + 1) * ((4 * c) * c),
        0 <= 4 * c,
        (4 * c) <= (k + 1) * (4 * c) <= count * (4 * c),
        k * (4 * c) + (4 * c) == (k + 1) * (4 * c),
        0 <= c * (4 * c),
        (c * (4 * c)) <= (k + 1) * (c * (4 * c)) <= count * (c * (4 * c)),
        k * (c * (4 * c)) + (c * (4 * c)) == (k + 1) * (c * (4 * c)),
        0 <= n * c,
        (n * c) <= (k + 1) * (n * c) <= count * (n * c),
        k * (n * c) + (n * c) == (k + 1) * (n * c),
        0 <= n,
        n <= (k + 1) * n <= count * n,
        k * n + n == (k + 1) * n,
        0 <= n * (3 * c),
        (n * (3 * c)) <= (k + 1) * (n * (3 * c)) <= count * (n * (3 * c)),
        k * (n * (3 * c)) + (n * (3 * c)) == (k + 1) * (n * (3 * c)),
        0 <= q,
        q <= (k + 1) * q <= count * q,
        k * q + q == (k + 1) * q,
        0 <= n * (4 * c),
        (n * (4 * c)) <= (k + 1) * (n * (4 * c)) <= count * (n * (4 * c)),
        k * (n * (4 * c)) + (n * (4 * c)) == (k + 1) * (n * (4 * c)),
{
    assert(0 <= (3 * c) * c) by (nonlinear_arith)
        requires
            0 <= n,
            0 <= c,
    ;
    assert(0 <= c * c) by (nonlinear_arith)
        requires
            0 <= n,
            0 <= c,
    ;
    assert(0 <= (4 * c) * c) by (nonlinear_arith)
        requires
            0 <= n,
            0 <= c,
    ;
    assert(0 <= c * (4 * c)) by (nonlinear_arith)
        requires
            0 <= n,
            0 <= c,
    ;
    assert(0 <= n * c) by (nonlinear_arith)
        requires
            0 <= n,
            0 <= c,
    ;
    assert(0 <= n * (3 * c)) by (nonlinear_arith)
        requires
            0 <= n,
            0 <= c,
    ;
    assert(0 <= n * (4 * c)) by (nonlinear_arith)
        requires
            0 <= n,
            0 <= c,
    ;
    lemma_row_bound(k, c, c, count);
    lemma_row_bound(k, (3 * c) * c, (3 * c) * c, count);
    lemma_row_bound(k, 3 * c, 3 * c, count);
    lemma_row_bound(k, c * c, c * c, count);
    lemma_row_bound(k, (4 * c) * c, (4 * c) * c, count);
    lemma_row_bound(k, 4 * c, 4 * c, count);
    lemma_row_bound(k, c * (4 * c), c * (4 * c), count);
    lemma_row_bound(k, n * c, n * c, count);
    lemma_row_bound(k, n, n, count);
    lemma_row_bound(k, n * (3 * c), n * (3 * c), count);
    lemma_row_bound(k, q, q, count);
    lemma_row_bound(k, n * (4 * c), n * (4 * c), count);
}

/// Replacing the activations of one layer leaves those of the others as they are.
proof fn lemma_layers_kept<T>(
    before: Acts<T>,
    after: Acts<T>,
    k: int,
    count: int,
    n: int,
    q: int,
    c: int,
    layer: LayerActs<T>,
)
    requires
        0 <= k < count,
        0 <= n,
        0 <= q,
        0 <= c,
        layers_sized(before, count, n, q, c),
        layer.ln1.len() == n * c,
        layer.ln1_mean.len() == n,
        layer.ln1_rstd.len() == n,
        layer.qkv.len() == n * (3 * c),
        layer.atty.len() == n * c,
        layer.preatt.len() == q,
        layer.att.len() == q,
        layer.attproj.len() == n * c,
        layer.residual2.len() == n * c,
        layer.ln2.len() == n * c,
        layer.ln2_mean.len() == n,
        layer.ln2_rstd.len() == n,
        layer.fch.len() == n * (4 * c),
        layer.fch_gelu.len() == n * (4 * c),
        layer.fcproj.len() == n * c,
        layer.residual3.len() == n * c,
        after.ln1 == splice(before.ln1, k * (n * c), layer.ln1),
        after.ln1_mean == splice(before.ln1_mean, k * n, layer.ln1_mean),
        after.ln1_rstd == splice(before.ln1_rstd, k * n, layer.ln1_rstd),
        after.qkv == splice(before.qkv, k * (n * (3 * c)), layer.qkv),
        after.atty == splice(before.atty, k * (n * c), layer.atty),
        after.preatt == splice(before.preatt, k * q, layer.preatt),
        after.att == splice(before.att, k * q, layer.att),
        after.attproj == splice(before.attproj, k * (n * c), layer.attproj),
        after.residual2 == splice(before.residual2, k * (n * c), layer.residual2),
        after.ln2 == splice(before.ln2, k * (n * c), layer.ln2),
        after.ln2_mean == splice(before.ln2_mean, k * n, layer.ln2_mean),
        after.ln2_rstd == splice(before.ln2_rstd, k * n, layer.ln2_rstd),
        after.fch == splice(before.fch, k * (n * (4 * c)), layer.fch),
        after.fch_gelu == splice(before.fch_gelu, k * (n * (4 * c)), layer.fch_gelu),
        after.fcproj == splice(before.fcproj, k * (n * c), layer.fcproj),
        after.residual3 == splice(before.residual3, k * (n * c), layer.residual3),
    ensures
        layers_sized(after, count, n, q, c),
        layer_acts(after, k, n, q, c) == layer,
        forall|j: int|
            0 <= j < count && j != k ==> #[trigger] layer_acts(after, j, n, q, c) == layer_acts(
                before,
                j,
                n,
                q,
                c,
            ),
{
    lemma_layer_bounds(k, count, n, q, c);
    lemma_splice_row(before.ln1, k, n * c, layer.ln1);
    lemma_splice_row(before.ln1_mean, k, n, layer.ln1_mean);
    lemma_splice_row(before.ln1_rstd, k, n, layer.ln1_rstd);
    lemma_splice_row(before.qkv, k, n * (3 * c), layer.qkv);
    lemma_splice_row(before.atty, k, n * c, layer.atty);
    lemma_splice_row(before.preatt, k, q, layer.preatt);
    lemma_splice_row(before.att, k, q, layer.att);
    lemma_splice_row(before.attproj, k, n * c, layer.attproj);
    lemma_splice_row(before.residual2, k, n * c, layer.residual2);
    lemma_splice_row(before.ln2, k, n * c, layer.ln2);
    lemma_splice_row(before.ln2_mean, k, n, layer.ln2_mean);
    lemma_splice_row(before.ln2_rstd, k, n, layer.ln2_rstd);
    lemma_splice_row(before.fch, k, n * (4 * c), layer.fch);
    lemma_splice_row(before.fch_gelu, k, n * (4 * c), layer.fch_gelu);
    lemma_splice_row(before.fcproj, k, n * c, layer.fcproj);
    lemma_splice_row(before.residual3, k, n * c, layer.residual3);
    assert forall|j: int| 0 <= j < count && j != k implies #[trigger] layer_acts(
        after,
        j,
        n,
        q,
        c,
    ) == layer_acts(before, j, n, q, c) by {
        lemma_layer_bounds(j, count, n, q, c);
    }
}

/// Computes layer `k` on what enters it.
pub fn forward_layer<T: Scalar>(
    acts: &mut ActivationTensors<T>,
    params: &ParameterTensors<T>,
    residual: &[T],
    k: usize,
    count: usize,
    n: usize,
    q: usize,
    b: usize,
    t: usize,
    c: usize,
    nh: usize,
)
    requires
        k < count,
        layers_parametrised(params@, count as int, c as int),
        layers_sized(old(acts)@, count as int, n as int, q as int, c as int),
        batch_fits(b as int, t as int, c as int, nh as int, n as int, q as int),
        (b * t) * c <= residual.len(),
    ensures
        layers_sized(final(acts)@, count as int, n as int, q as int, c as int),
        outer_acts_kept(old(acts)@, final(acts)@),
        layer_computed(
            layer_params(params@, k as int, c as int),
            residual@,
            layer_acts(old(acts)@, k as int, n as int, q as int, c as int),
            layer_acts(final(acts)@, k as int, n as int, q as int, c as int),
            b as int,
            t as int,
            c as int,
            nh as int,
        ),
        forall|j: int|
            0 <= j < count && j != k ==> #[trigger] layer_acts(
                final(acts)@,
                j,
                n as int,
                q as int,
                c as int,
            ) == layer_acts(old(acts)@, j, n as int, q as int, c as int),
{
    let ghost before = acts@;
    proof {
        lemma_batch_fits(b as int, t as int, c as int, nh as int, n as int, q as int);
        lemma_layer_bounds(k as int, count as int, n as int, q as int, c as int);
        assert(acts.ln1.len() == acts@.ln1.len());
        assert(acts.qkv.len() == acts@.qkv.len());
        assert(acts.fch.len() == acts@.fch.len());
        assert(params.attprojw.len() == params@.attprojw.len());
        assert(params.qkvw.len() == params@.qkvw.len());
        assert(params.fcw.len() == params@.fcw.len());
        assert(params.fcprojw.len() == params@.fcprojw.len());
    }
    let c3: usize = 3 * c;
    let c4: usize = 4 * c;
    let nc: usize = n * c;
    let nc3: usize = n * c3;
    let nc4: usize = n * c4;
    let ln1w = row_of(&params.ln1w, k, c);
    let ln1b = row_of(&params.ln1b, k, c);
    let qkvw = row_of(&params.qkvw, k, c3 * c);
    let qkvb = row_of(&params.qkvb, k, c3);
    let attprojw = row_of(&params.attprojw, k, c * c);
    let attprojb = row_of(&params.attprojb, k, c);
    let ln2w = row_of(&params.ln2w, k, c);
    let ln2b = row_of(&params.ln2b, k, c);
    let fcw = row_of(&params.fcw, k, c4 * c);
    let fcb = row_of(&params.fcb, k, c4);
    let fcprojw = row_of(&params.fcprojw, k, c * c4);
    let fcprojb = row_of(&params.fcprojb, k, c);
    let ln1 = row_mut(&mut acts.ln1, k, nc);
    let ln1_mean = row_mut(&mut acts.ln1_mean, k, n);
    let ln1_rstd = row_mut(&mut acts.ln1_rstd, k, n);
    let qkv = row_mut(&mut acts.qkv, k, nc3);
    let atty = row_mut(&mut acts.atty, k, nc);
    let preatt = row_mut(&mut acts.preatt, k, q);
    let att = row_mut(&mut acts.att, k, q);
    let attproj = row_mut(&mut acts.attproj, k, nc);
    let residual2 = row_mut(&mut acts.residual2, k, nc);
    let ln2 = row_mut(&mut acts.ln2, k, nc);
    let ln2_mean = row_mut(&mut acts.ln2_mean, k, n);
    let ln2_rstd = row_mut(&mut acts.ln2_rstd, k, n);
    let fch = row_mut(&mut acts.fch, k, nc4);
    let fch_gelu = row_mut(&mut acts.fch_gelu, k, nc4);
    let fcproj = row_mut(&mut acts.fcproj, k, nc);
    let residual3 = row_mut(&mut acts.residual3, k, nc);
    layernorm_forward(ln1, ln1_mean, ln1_rstd, residual, ln1w, ln1b, b, t, c);
    matmul_forward(qkv, ln1, qkvw, Some(qkvb), b, t, c, c3);
    attention_forward(atty, preatt, att, qkv, b, t, c, nh);
    matmul_forward(attproj, atty, attprojw, Some(attprojb), b, t, c, c);
    residual_forward(residual2, residual, attproj, b * t * c);
    layernorm_forward(ln2, ln2_mean, ln2_rstd, residual2, ln2w, ln2b, b, t, c);
    matmul_forward(fch, ln2, fcw, Some(fcb), b, t, c, c4);
    gelu_forward(fch_gelu, fch, b * t * c4);
    matmul_forward(fcproj, fch_gelu, fcprojw, Some(fcprojb), b, t, c4, c);
    residual_forward(residual3, residual2, fcproj, b * t * c);
    let ghost layer = LayerActs {
        ln1: ln1@,
        ln1_mean: ln1_mean@,
        ln1_rstd: ln1_rstd@,
        qkv: qkv@,
        atty: atty@,
        preatt: preatt@,
        att: att@,
        attproj: attproj@,
        residual2: residual2@,
        ln2: ln2@,
        ln2_mean: ln2_mean@,
        ln2_rstd: ln2_rstd@,
        fch: fch@,
        fch_gelu: fch_gelu@,
        fcproj: fcproj@,
        residual3: residual3@,
    };
    proof {
        lemma_layers_kept(
            before,
            acts@,
            k as int,
            count as int,
            n as int,
            q as int,
            c as int,
            layer,
        );
    }
}

} // verus!
