//! What the forward pass comes to, tensor by tensor, where scalars are real numbers.

use vstd::prelude::*;

use crate::attention_numbers::{lemma_pays_attention, pays_attention};
use crate::buffer::lemma_row_bound;
use crate::forward::{
    batch_computed, can_forward, head_computed, layers_computed, lemma_smaller_batch, room_made,
    too_large,
};
use crate::kernel_numbers::{
    activates, adds, embeds, lemma_activates, lemma_adds, lemma_embeds, lemma_loses,
    lemma_mean_loss, lemma_normalises, lemma_probable, lemma_projects, loses, normalises, probable,
    projects,
};
use crate::layers::{
    batch_fits, layer_acts, layer_computed, layer_input, layer_params, layers_parametrised,
    layers_sized, lemma_batch_fits, lemma_layer_bounds,
};
use crate::model::{no_loss, Model};
use crate::reals::{
    exact, exact_curves, exact_limits, exact_products, exact_roots, lemma_worth, rsum, sound, worth,
    Reading,
};
use crate::scalar::Scalar;
use crate::tensors::{lemma_acts_fit, Acts, Params};

verus! {

/// All operations of the scalar type are those of real numbers.
pub open spec fn all_exact<T: Scalar>(r: Reading<T>) -> bool {
    &&& exact(r)
    &&& exact_roots(r)
    &&& exact_curves(r)
    &&& exact_limits(r)
    &&& exact_products(r)
}

/// What belongs to layer `j` in a tensor with `w` elements for each layer.
pub open spec fn slab<A>(s: Seq<A>, j: int, w: int) -> Seq<A> {
    s.subrange(j * w, j * w + w)
}

/// Layer `j` is computed: what enters it, the embeddings or what left the layer before, is
/// normalised, projected to queries, keys and values, and attention is paid; the projection of its
/// output is added to what entered the layer. The sum is normalised, projected to four times as
/// many channels, activated and projected back, and this is added to the sum.
pub open spec fn layer_by_numbers<T>(
    r: Reading<T>,
    p: Params<T>,
    a: Acts<T>,
    j: int,
    n: int,
    q: int,
    b: int,
    t: int,
    c: int,
    nh: int,
) -> bool {
    let m = b * t;
    let entering = if j == 0 {
        a.encoded
    } else {
        slab(a.residual3, j - 1, n * c)
    };
    let ln1 = slab(a.ln1, j, n * c);
    let qkv = slab(a.qkv, j, n * (3 * c));
    let atty = slab(a.atty, j, n * c);
    let attproj = slab(a.attproj, j, n * c);
    let residual2 = slab(a.residual2, j, n * c);
    let ln2 = slab(a.ln2, j, n * c);
    let fch = slab(a.fch, j, n * (4 * c));
    let fch_gelu = slab(a.fch_gelu, j, n * (4 * c));
    let fcproj = slab(a.fcproj, j, n * c);
    &&& normalises(
        r,
        ln1,
        slab(a.ln1_mean, j, n),
        slab(a.ln1_rstd, j, n),
        entering,
        slab(p.ln1w, j, c),
        slab(p.ln1b, j, c),
        m,
        c,
    )
    &&& projects(
        r,
        qkv,
        ln1,
        slab(p.qkvw, j, (3 * c) * c),
        Some(slab(p.qkvb, j, 3 * c)),
        m,
        c,
        3 * c,
    )
    &&& pays_attention(r, atty, slab(a.preatt, j, q), slab(a.att, j, q), qkv, b, t, c, nh)
    &&& projects(
        r,
        attproj,
        atty,
        slab(p.attprojw, j, c * c),
        Some(slab(p.attprojb, j, c)),
        m,
        c,
        c,
    )
    &&& adds(r, residual2, entering, attproj, m * c)
    &&& normalises(
        r,
        ln2,
        slab(a.ln2_mean, j, n),
        slab(a.ln2_rstd, j, n),
        residual2,
        slab(p.ln2w, j, c),
        slab(p.ln2b, j, c),
        m,
        c,
    )
    &&& projects(
        r,
        fch,
        ln2,
        slab(p.fcw, j, (4 * c) * c),
        Some(slab(p.fcb, j, 4 * c)),
        m,
        c,
        4 * c,
    )
    &&& activates(r, fch_gelu, fch, m * (4 * c))
    &&& projects(
        r,
        fcproj,
        fch_gelu,
        slab(p.fcprojw, j, c * (4 * c)),
        Some(slab(p.fcprojb, j, c)),
        m,
        4 * c,
        c,
    )
    &&& adds(r, slab(a.residual3, j, n * c), residual2, fcproj, m * c)
}

/// A batch of `b` sequences of `t` tokens is computed: tokens and positions are embedded, every
/// layer is computed on what left the one before, what left the last one is normalised, its
/// products with the embeddings of the tokens are the logits, and these make the probabilities.
pub open spec fn batch_by_numbers<T>(
    r: Reading<T>,
    p: Params<T>,
    a: Acts<T>,
    inputs: Seq<i32>,
    count: int,
    n: int,
    q: int,
    b: int,
    t: int,
    c: int,
    nh: int,
    v: int,
) -> bool {
    let m = b * t;
    &&& embeds(r, a.encoded, inputs, p.wte, p.wpe, m, t, c)
    &&& forall|j: int|
        0 <= j < count ==> #[trigger] layer_by_numbers(r, p, a, j, n, q, b, t, c, nh)
    &&& normalises(
        r,
        a.lnf,
        a.lnf_mean,
        a.lnf_rstd,
        slab(a.residual3, count - 1, n * c),
        p.lnfw,
        p.lnfb,
        m,
        c,
    )
    &&& projects(r, a.logits, a.lnf, p.wte, None, m, c, v)
    &&& v > 0 ==> probable(r, a.probs, a.logits, m, v)
}

/// A layer is computed as the numbers say.
proof fn lemma_layer_by_numbers<T: Scalar>(
    r: Reading<T>,
    p: Params<T>,
    before: Acts<T>,
    a: Acts<T>,
    j: int,
    count: int,
    n: int,
    q: int,
    b: int,
    t: int,
    c: int,
    nh: int,
)
    requires
        all_exact(r),
        0 <= j < count,
        0 <= n,
        0 <= q,
        batch_fits(b, t, c, nh, n, q),
        layers_parametrised(p, count, c),
        layers_sized(before, count, n, q, c),
        layers_sized(a, count, n, q, c),
        layers_computed(p, before, a, count, n, q, b, t, c, nh),
        (b * t) * c <= a.encoded.len(),
    ensures
        layer_by_numbers(r, p, a, j, n, q, b, t, c, nh),
{
    let m = b * t;
    lemma_batch_fits(b, t, c, nh, n, q);
    lemma_layer_bounds(j, count, n, q, c);
    if j > 0 {
        lemma_layer_bounds(j - 1, count, n, q, c);
    }
    let x = layer_params(p, j, c);
    let y = layer_acts(before, j, n, q, c);
    let z = layer_acts(a, j, n, q, c);
    let entering = layer_input(a, j, n, c);
    assert(layer_computed(x, entering, y, z, b, t, c, nh));
    assert(c / nh <= i32::MAX) by (nonlinear_arith)
        requires
            0 < nh,
            0 < c <= i32::MAX,
    ;
    assert(c * (3 * c) == (3 * c) * c && c * (4 * c) == (4 * c) * c) by (nonlinear_arith);
    lemma_normalises(
        r,
        y.ln1,
        z.ln1,
        y.ln1_mean,
        z.ln1_mean,
        y.ln1_rstd,
        z.ln1_rstd,
        entering,
        x.ln1w,
        x.ln1b,
        m,
        c,
    );
    lemma_projects(r, y.qkv, z.qkv, z.ln1, x.qkvw, Some(x.qkvb), m, c, 3 * c);
    lemma_pays_attention(
        r,
        y.atty,
        z.atty,
        y.preatt,
        z.preatt,
        y.att,
        z.att,
        z.qkv,
        b,
        t,
        c,
        nh,
    );
    lemma_projects(r, y.attproj, z.attproj, z.atty, x.attprojw, Some(x.attprojb), m, c, c);
    lemma_adds(r, y.residual2, z.residual2, entering, z.attproj, m * c);
    lemma_normalises(
        r,
        y.ln2,
        z.ln2,
        y.ln2_mean,
        z.ln2_mean,
        y.ln2_rstd,
        z.ln2_rstd,
        z.residual2,
        x.ln2w,
        x.ln2b,
        m,
        c,
    );
    lemma_projects(r, y.fch, z.fch, z.ln2, x.fcw, Some(x.fcb), m, c, 4 * c);
    lemma_activates(r, y.fch_gelu, z.fch_gelu, z.fch, m * (4 * c));
    lemma_projects(r, y.fcproj, z.fcproj, z.fch_gelu, x.fcprojw, Some(x.fcprojb), m, 4 * c, c);
    lemma_adds(r, y.residual3, z.residual3, z.residual2, z.fcproj, m * c);
}

/// The forward pass computes the transformer: embeddings, layers, logits and probabilities are what
/// the numbers say, the loss of a place is the negated logarithm of the probability of its target,
/// and the mean loss is their mean. Without targets it is minus one.
pub proof fn lemma_forward_by_numbers<T: Scalar>(
    r: Reading<T>,
    before: Model<T>,
    ready: Model<T>,
    after: Model<T>,
    inputs: Seq<i32>,
    targets: Option<Seq<i32>>,
    b: usize,
    t: usize,
)
    requires
        all_exact(r),
        !too_large(before, b, t),
        can_forward(before, inputs, targets, b, t),
        room_made(before, ready, b, t),
        batch_computed(ready, after, inputs, targets, b, t),
        0 < b,
        0 < t,
    ensures
        after.inputs == inputs,
        targets matches Some(x) ==> after.targets == x,
        before.acts_memory.len() == 0 ==> after.batch_size == b && after.seq_len == t,
        b <= after.batch_size,
        t <= after.seq_len,
        batch_by_numbers(
            r,
            before.params,
            after.acts,
            inputs,
            before.config.num_layers as int,
            after.batch_size * after.seq_len,
            (after.batch_size * before.config.num_heads) * (after.seq_len * after.seq_len),
            b as int,
            t as int,
            before.config.channels as int,
            before.config.num_heads as int,
            before.config.vocab_size as int,
        ),
        match targets {
            Some(x) => {
                &&& loses(
                    r,
                    after.acts.losses,
                    after.acts.probs,
                    x,
                    b * t,
                    before.config.vocab_size as int,
                )
                &&& (r.val)(after.mean_loss) * ((b * t) as real) == rsum(
                    |i: int| (r.val)(after.acts.losses[i]),
                    b * t,
                )
            },
            None => (r.val)(after.mean_loss) == -1real,
        },
{
    let (gb, gt) = (b as int, t as int);
    let count = before.config.num_layers as int;
    let nh = before.config.num_heads as int;
    let c = before.config.channels as int;
    let v = before.config.vocab_size as int;
    let (bb, tt) = (ready.batch_size as int, ready.seq_len as int);
    let m = gb * gt;
    let n = bb * tt;
    let q = (bb * nh) * (tt * tt);
    let p = before.params;
    let (a0, a) = (ready.acts, after.acts);
    lemma_acts_fit(bb, tt, count, nh, c, v);
    lemma_smaller_batch(gb, gt, bb, tt, nh);
    lemma_smaller_batch(m, v, n, v, 0);
    assert(batch_fits(gb, gt, c, nh, n, q));
    lemma_batch_fits(gb, gt, c, nh, n, q);
    lemma_layer_bounds(count - 1, count, n, q, c);
    lemma_embeds(r, a0.encoded, a.encoded, inputs, p.wte, p.wpe, m, gt, c);
    assert forall|j: int| 0 <= j < count implies #[trigger] layer_by_numbers(
        r,
        p,
        a,
        j,
        n,
        q,
        gb,
        gt,
        c,
        nh,
    ) by {
        lemma_layer_by_numbers(r, p, a0, a, j, count, n, q, gb, gt, c, nh);
    }
    let last = slab(a.residual3, count - 1, n * c);
    assert(head_computed(p, a0, a, last, targets, after.mean_loss, m, c, v));
    lemma_normalises(
        r,
        a0.lnf,
        a.lnf,
        a0.lnf_mean,
        a.lnf_mean,
        a0.lnf_rstd,
        a.lnf_rstd,
        last,
        p.lnfw,
        p.lnfb,
        m,
        c,
    );
    lemma_projects(r, a0.logits, a.logits, a.lnf, p.wte, None, m, c, v);
    if v > 0 {
        lemma_probable(r, a0.probs, a.probs, a.logits, m, v);
    }
    assert(0 < m) by (nonlinear_arith)
        requires
            0 < gb,
            0 < gt,
            m == gb * gt,
    ;
    match targets {
        Some(x) => {
            assert(0 <= x[0] < v);
            assert forall|i: int| 0 <= i < m implies 0real < (r.val)(
                a.probs[i * v + #[trigger] x[i]],
            ) by {
                lemma_row_bound(i, v, v, m);
                let share = a.probs.subrange(i * v, i * v + v);
                assert(0 <= x[i] < v);
                assert(0real < (r.val)(share[x[i] as int]));
            }
            lemma_loses(r, a0.losses, a.losses, a.probs, x, m, v);
            lemma_mean_loss(r, a.losses, m, after.mean_loss);
        },
        None => {
            reveal_with_fuel(worth, 3);
            reveal_with_fuel(sound, 3);
            lemma_worth(r, no_loss(), after.mean_loss);
        },
    }
}

} // verus!
