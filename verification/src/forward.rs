//! The forward pass.

use vstd::prelude::*;
use vstd::slice::slice_to_vec;

use crate::buffer::{row, row_of};
use crate::crossentropy::{crossentropy_forward, losses_of, targets_in_range};
use crate::encoder::{encoded, encoder_forward, tokens_in_table};
use crate::layernorm::{layer_normalised, layernorm_forward};
use crate::layers::{
    batch_fits, forward_layer, layer_acts, layer_computed, layer_input, layer_params,
    layers_parametrised, layers_sized, lemma_batch_fits, lemma_layer_bounds, outer_acts_kept,
};
use crate::matmul::{matmul_forward, projected};
use crate::model::{no_loss, Model, ModelError, GPT2};
use crate::scalar::{evals, total, Expr, Scalar, Traced};
use crate::softmax::{softmax_forward, softmax_rows};
use crate::tensors::{
    activation_count, acts_fit, acts_resized, acts_sized, lemma_acts_fit,
    ActivationTensors, Acts, ParameterTensors, Params,
};

verus! {

/// The first `m` layers have been computed, each on what left the one before.
pub open spec fn layers_computed<T: Scalar>(
    p: Params<T>,
    before: Acts<T>,
    after: Acts<T>,
    m: int,
    n: int,
    q: int,
    b: int,
    t: int,
    c: int,
    nh: int,
) -> bool {
    forall|k: int|
        0 <= k < m ==> layer_computed(
            layer_params(p, k, c),
            layer_input(after, k, n, c),
            layer_acts(before, k, n, q, c),
            #[trigger] layer_acts(after, k, n, q, c),
            b,
            t,
            c,
            nh,
        )
}

/// The logits, the probabilities and the losses of `n` places have been computed from what left
/// the last layer. The mean loss is minus one where there are no targets.
pub open spec fn head_computed<T: Scalar>(
    p: Params<T>,
    before: Acts<T>,
    after: Acts<T>,
    residual: Seq<T>,
    targets: Option<Seq<i32>>,
    mean_loss: T,
    n: int,
    c: int,
    v: int,
) -> bool {
    &&& layer_normalised(
        before.lnf,
        after.lnf,
        before.lnf_mean,
        after.lnf_mean,
        before.lnf_rstd,
        after.lnf_rstd,
        residual,
        p.lnfw,
        p.lnfb,
        n,
        c,
    )
    &&& projected(before.logits, after.logits, after.lnf, p.wte, None, n, c, v)
    &&& softmax_rows(before.probs, after.probs, after.logits, n, v)
    &&& match targets {
        Some(targets) => {
            &&& losses_of(before.losses, after.losses, after.probs, targets, n, v)
            &&& evals(total(after.losses, n).over(Expr::Count(n as usize)), mean_loss)
        },
        None => {
            &&& after.losses == before.losses
            &&& evals(no_loss(), mean_loss)
        },
    }
}

/// The activations, the probabilities and the mean loss of a batch of `b` sequences of `t` tokens
/// have been computed, in tensors with room for `n` places and `q` attention weights in each of
/// `count` layers.
pub open spec fn model_computed<T: Scalar>(
    p: Params<T>,
    before: Acts<T>,
    after: Acts<T>,
    inputs: Seq<i32>,
    targets: Option<Seq<i32>>,
    mean_loss: T,
    count: int,
    n: int,
    q: int,
    b: int,
    t: int,
    c: int,
    nh: int,
    v: int,
) -> bool {
    &&& encoded(before.encoded, after.encoded, inputs, p.wte, p.wpe, b * t, t, c)
    &&& layers_sized(after, count, n, q, c)
    &&& layers_computed(p, before, after, count, n, q, b, t, c, nh)
    &&& head_computed(
        p,
        before,
        after,
        row(after.residual3, count - 1, n * c),
        targets,
        mean_loss,
        b * t,
        c,
        v,
    )
}

/// Computes the layers one after the other.
pub fn forward_layers<T: Scalar>(
    acts: &mut ActivationTensors<T>,
    params: &ParameterTensors<T>,
    count: usize,
    n: usize,
    q: usize,
    b: usize,
    t: usize,
    c: usize,
    nh: usize,
)
    requires
        layers_parametrised(params@, count as int, c as int),
        layers_sized(old(acts)@, count as int, n as int, q as int, c as int),
        batch_fits(b as int, t as int, c as int, nh as int, n as int, q as int),
        (b * t) * c <= old(acts)@.encoded.len(),
    ensures
        layers_sized(final(acts)@, count as int, n as int, q as int, c as int),
        outer_acts_kept(old(acts)@, final(acts)@),
        layers_computed(
            params@,
            old(acts)@,
            final(acts)@,
            count as int,
            n as int,
            q as int,
            b as int,
            t as int,
            c as int,
            nh as int,
        ),
{
    let ghost before = acts@;
    proof {
        lemma_batch_fits(b as int, t as int, c as int, nh as int, n as int, q as int);
    }
    for k in 0..count
        invariant
            layers_parametrised(params@, count as int, c as int),
            layers_sized(acts@, count as int, n as int, q as int, c as int),
            batch_fits(b as int, t as int, c as int, nh as int, n as int, q as int),
            0 <= (b * t) * c <= n * c,
            (b * t) * c <= before.encoded.len(),
            outer_acts_kept(before, acts@),
            layers_computed(
                params@,
                before,
                acts@,
                k as int,
                n as int,
                q as int,
                b as int,
                t as int,
                c as int,
                nh as int,
            ),
            forall|j: int|
                k <= j < count ==> #[trigger] layer_acts(
                    acts@,
                    j,
                    n as int,
                    q as int,
                    c as int,
                ) == layer_acts(before, j, n as int, q as int, c as int),
    {
        let ghost prior = acts@;
        proof {
            lemma_layer_bounds(k as int, count as int, n as int, q as int, c as int);
            assert(acts.residual3.len() == acts@.residual3.len());
        }
        let residual = if k == 0 {
            slice_to_vec(&acts.encoded)
        } else {
            proof {
                lemma_layer_bounds(k - 1, count as int, n as int, q as int, c as int);
            }
            slice_to_vec(row_of(&acts.residual3, k - 1, n * c))
        };
        forward_layer(acts, params, &residual, k, count, n, q, b, t, c, nh);
        proof {
            assert forall|j: int| 0 <= j < k + 1 implies layer_computed(
                layer_params(params@, j, c as int),
                layer_input(acts@, j, n as int, c as int),
                layer_acts(before, j, n as int, q as int, c as int),
                #[trigger] layer_acts(acts@, j, n as int, q as int, c as int),
                b as int,
                t as int,
                c as int,
                nh as int,
            ) by {
                if j > 0 {
                    let a = layer_acts(acts@, j - 1, n as int, q as int, c as int);
                    let a0 = layer_acts(prior, j - 1, n as int, q as int, c as int);
                    assert(a == a0);
                    assert(a.residual3 == a0.residual3);
                }
                assert(layer_input(acts@, j, n as int, c as int) == layer_input(
                    prior,
                    j,
                    n as int,
                    c as int,
                ));
                if j < k {
                    let a0 = layer_acts(prior, j, n as int, q as int, c as int);
                    assert(layer_acts(acts@, j, n as int, q as int, c as int) == a0);
                }
            }
        }
    }
}

/// Computes the probabilities of the next tokens, and the mean loss, from what left the last
/// layer.
pub fn forward_head<T: Scalar>(
    acts: &mut ActivationTensors<T>,
    params: &ParameterTensors<T>,
    residual: &[T],
    targets: Option<&[i32]>,
    b: usize,
    t: usize,
    c: usize,
    v: usize,
) -> (mean_loss: T)
    requires
        b * t <= i32::MAX,
        c <= i32::MAX,
        v <= i32::MAX,
        (b * t) * c <= residual.len(),
        (b * t) * c <= old(acts).lnf.len(),
        b * t <= old(acts).lnf_mean.len(),
        b * t <= old(acts).lnf_rstd.len(),
        (b * t) * v <= old(acts).logits.len(),
        (b * t) * v <= old(acts).probs.len(),
        b * t <= old(acts).losses.len(),
        c <= params.lnfw.len(),
        c <= params.lnfb.len(),
        v * c <= params.wte.len(),
        targets matches Some(x) ==> targets_in_range(x@, b * t, v as int),
    ensures
        head_computed(
            params@,
            old(acts)@,
            final(acts)@,
            residual@,
            match targets {
                Some(x) => Some(x@),
                None => None,
            },
            mean_loss,
            b * t,
            c as int,
            v as int,
        ),
        final(acts)@ == (Acts {
            lnf: final(acts)@.lnf,
            lnf_mean: final(acts)@.lnf_mean,
            lnf_rstd: final(acts)@.lnf_rstd,
            logits: final(acts)@.logits,
            probs: final(acts)@.probs,
            losses: final(acts)@.losses,
            ..old(acts)@
        }),
{
    layernorm_forward(
        &mut acts.lnf,
        &mut acts.lnf_mean,
        &mut acts.lnf_rstd,
        residual,
        &params.lnfw,
        &params.lnfb,
        b,
        t,
        c,
    );
    matmul_forward(&mut acts.logits, &acts.lnf, &params.wte, None, b, t, c, v);
    softmax_forward(&mut acts.probs, &acts.logits, b, t, v);
    match targets {
        Some(targets) => {
            crossentropy_forward(&mut acts.losses, &acts.probs, targets, b, t, v);
            let n: usize = b * t;
            let mut loss = Traced::zero();
            for i in 0..n
                invariant
                    n <= acts@.losses.len(),
                    loss.ok(),
                    loss.e@ == total(acts@.losses, i as int),
            {
                loss = loss.plus(&Traced::quote(acts.losses[i]));
            }
            loss.over(&Traced::count(n)).v
        },
        None => Traced::one().neg().v,
    }
}

/// The number of places that the activations of a layer have room for.
pub open spec fn places<T>(model: Model<T>) -> int {
    model.batch_size * model.seq_len
}

/// The number of attention weights that the activations of a layer have room for.
pub open spec fn attention_room<T>(model: Model<T>) -> int {
    (model.batch_size * model.config.num_heads) * (model.seq_len * model.seq_len)
}

/// There is room for some batches, and it does not suffice for `b` sequences of `t` tokens.
pub open spec fn too_large<T>(model: Model<T>, b: usize, t: usize) -> bool {
    model.acts_memory.len() > 0 && (b > model.batch_size || t > model.seq_len)
}

/// The activations have room for batches of the size that the model states.
pub open spec fn acts_in_shape<T>(model: Model<T>, a: Acts<T>) -> bool {
    acts_sized(
        a,
        model.batch_size as int,
        model.seq_len as int,
        model.config.num_layers as int,
        model.config.num_heads as int,
        model.config.channels as int,
        model.config.vocab_size as int,
    )
}

/// The sizes of the activations for `b` sequences of `t` tokens can be counted.
pub open spec fn batch_countable<T>(model: Model<T>, b: usize, t: usize) -> bool {
    acts_fit(
        b as int,
        t as int,
        model.config.num_layers as int,
        model.config.num_heads as int,
        model.config.channels as int,
        model.config.vocab_size as int,
    )
}

/// The number of activations for `b` sequences of `t` tokens.
pub open spec fn batch_activations<T>(model: Model<T>, b: usize, t: usize) -> int {
    activation_count(
        b as int,
        t as int,
        model.config.num_layers as int,
        model.config.num_heads as int,
        model.config.channels as int,
        model.config.vocab_size as int,
    )
}

/// The parameters are those of `count` layers of `c` channels and a vocabulary of `v`, or more.
pub open spec fn params_cover<T>(p: Params<T>, count: int, c: int, v: int) -> bool {
    &&& v * c <= p.wte.len()
    &&& layers_parametrised(p, count, c)
    &&& c <= p.lnfw.len()
    &&& c <= p.lnfb.len()
}

/// There are the parameters that the shape of the model asks for, and its dimensions are within
/// what a matrix product takes.
pub open spec fn computable<T>(model: Model<T>) -> bool {
    &&& 0 < model.config.num_layers
    &&& 0 < model.config.num_heads
    &&& 0 < model.config.channels
    &&& 4 * model.config.channels <= i32::MAX
    &&& model.config.vocab_size <= i32::MAX
    &&& params_cover(
        model.params,
        model.config.num_layers as int,
        model.config.channels as int,
        model.config.vocab_size as int,
    )
}

/// The batch has tokens that there are embeddings for and targets of the vocabulary, and no
/// sequence is longer than there are positions for.
pub open spec fn batch_valid<T>(
    model: Model<T>,
    inputs: Seq<i32>,
    targets: Option<Seq<i32>>,
    b: usize,
    t: usize,
) -> bool {
    &&& b * t <= i32::MAX
    &&& b > 0 ==> t * model.config.channels <= model.params.wpe.len()
    &&& tokens_in_table(
        inputs,
        b * t,
        model.config.channels as int,
        model.params.wte.len() as int,
    )
    &&& targets matches Some(x) ==> targets_in_range(
        x,
        b * t,
        model.config.vocab_size as int,
    )
}

/// A batch can be computed.
pub open spec fn can_forward<T>(
    model: Model<T>,
    inputs: Seq<i32>,
    targets: Option<Seq<i32>>,
    b: usize,
    t: usize,
) -> bool {
    &&& computable(model)
    &&& batch_valid(model, inputs, targets, b, t)
    &&& if model.acts_memory.len() == 0 {
        &&& batch_countable(model, b, t)
        &&& batch_activations(model, b, t) <= usize::MAX
    } else {
        &&& batch_countable(model, model.batch_size, model.seq_len)
        &&& acts_in_shape(model, model.acts)
    }
}

/// Room has been made for `b` sequences of `t` tokens, unless the room there is has been fixed.
pub open spec fn room_made<T: Scalar>(
    before: Model<T>,
    ready: Model<T>,
    b: usize,
    t: usize,
) -> bool {
    let config = before.config;
    if before.acts_memory.len() == 0 {
        &&& ready == (Model {
            batch_size: b,
            seq_len: t,
            acts: ready.acts,
            num_activations: ready.num_activations,
            grads_acts: ready.grads_acts,
            ..before
        })
        &&& ready.num_activations == batch_activations(before, b, t)
        &&& acts_resized(
            before.acts,
            ready.acts,
            b as int,
            t as int,
            config.num_layers as int,
            config.num_heads as int,
            config.channels as int,
            config.vocab_size as int,
        )
        &&& acts_resized(
            before.grads_acts,
            ready.grads_acts,
            b as int,
            t as int,
            config.num_layers as int,
            config.num_heads as int,
            config.channels as int,
            config.vocab_size as int,
        )
    } else {
        ready == before
    }
}

/// The batch has been kept and computed.
pub open spec fn batch_computed<T: Scalar>(
    ready: Model<T>,
    after: Model<T>,
    inputs: Seq<i32>,
    targets: Option<Seq<i32>>,
    b: usize,
    t: usize,
) -> bool {
    &&& after == (Model {
        inputs,
        targets: match targets {
            Some(x) => x,
            None => ready.targets,
        },
        acts: after.acts,
        mean_loss: after.mean_loss,
        ..ready
    })
    &&& model_computed(
        ready.params,
        ready.acts,
        after.acts,
        inputs,
        targets,
        after.mean_loss,
        ready.config.num_layers as int,
        places(ready),
        attention_room(ready),
        b as int,
        t as int,
        ready.config.channels as int,
        ready.config.num_heads as int,
        ready.config.vocab_size as int,
    )
}

/// A product of positive numbers is positive.
pub proof fn lemma_nonzero_product(a: int, b: int)
    requires
        0 < a,
        0 < b,
    ensures
        0 < a * b,
{
    assert(0 < a * b) by (nonlinear_arith)
        requires
            0 < a,
            0 < b,
    ;
}

/// A product with a factor of zero is zero.
pub proof fn lemma_zero_factor(a: int, b: int)
    ensures
        a == 0 ==> a * b == 0,
{
    assert(a == 0 ==> a * b == 0) by (nonlinear_arith);
}

/// A smaller batch lies within the room for a larger one.
pub proof fn lemma_smaller_batch(b: int, t: int, bb: int, tt: int, nh: int)
    requires
        0 <= b <= bb,
        0 <= t <= tt,
        0 <= nh,
    ensures
        b * t <= bb * tt,
        b * nh <= bb * nh,
        (b * nh) * (t * t) <= (bb * nh) * (tt * tt),
{
    assert(b * t <= bb * tt) by (nonlinear_arith)
        requires
            0 <= b <= bb,
            0 <= t <= tt,
    ;
    assert(0 <= b * nh <= bb * nh) by (nonlinear_arith)
        requires
            0 <= b <= bb,
            0 <= nh,
    ;
    assert(0 <= t * t <= tt * tt) by (nonlinear_arith)
        requires
            0 <= t <= tt,
    ;
    let h = b * nh;
    let hh = bb * nh;
    let s = t * t;
    let ss = tt * tt;
    assert(h * s <= hh * ss) by (nonlinear_arith)
        requires
            0 <= h <= hh,
            0 <= s <= ss,
    ;
}

impl<T: Scalar> GPT2<T> {
    /// Computes the probabilities of the next tokens, and with targets the mean loss, for `b`
    /// sequences of `t` tokens.
    pub fn forward(
        &mut self,
        inputs: &[i32],
        targets: Option<&[i32]>,
        b: usize,
        t: usize,
    ) -> (r: Result<(), ModelError>)
        requires
            old(self)@.params_memory.len() > 0 && !too_large(old(self)@, b, t) ==> can_forward(
                old(self)@,
                inputs@,
                match targets {
                    Some(x) => Some(x@),
                    None => None,
                },
                b,
                t,
            ),
        ensures
            old(self)@.params_memory.len() == 0 ==> {
                &&& r == Err::<(), ModelError>(ModelError::NotInitialized)
                &&& final(self)@ == (Model { batch_size: b, seq_len: t, ..old(self)@ })
            },
            old(self)@.params_memory.len() > 0 && too_large(old(self)@, b, t) ==> {
                &&& r == Err::<(), ModelError>(ModelError::TooLarge)
                &&& final(self)@ == old(self)@
            },
            old(self)@.params_memory.len() > 0 && !too_large(old(self)@, b, t) ==> {
                &&& r is Ok
                &&& exists|ready: Model<T>| #[trigger]
                    room_made(old(self)@, ready, b, t) && batch_computed(
                        ready,
                        final(self)@,
                        inputs@,
                        match targets {
                            Some(x) => Some(x@),
                            None => None,
                        },
                        b,
                        t,
                    )
            },
    {
        if self.params_memory.is_empty() {
            self.batch_size = b;
            self.seq_len = t;
            return Err(ModelError::NotInitialized);
        }
        let v = self.config.vocab_size;
        let l = self.config.num_layers;
        let nh = self.config.num_heads;
        let c = self.config.channels;
        if self.acts_memory.is_empty() {
            self.batch_size = b;
            self.seq_len = t;
            self.allocate_activation_tensors(b, t, l, nh, c, v);
            self.allocate_grad_activation_tensors(b, t, l, nh, c, v);
        } else if b > self.batch_size || t > self.seq_len {
            return Err(ModelError::TooLarge);
        }
        let ghost ready = self@;
        assert(room_made(old(self)@, ready, b, t));
        proof {
            lemma_acts_fit(
                self.batch_size as int,
                self.seq_len as int,
                l as int,
                nh as int,
                c as int,
                v as int,
            );
            lemma_smaller_batch(
                b as int,
                t as int,
                self.batch_size as int,
                self.seq_len as int,
                nh as int,
            );
            assert(acts_in_shape(ready, ready.acts));
        }
        let n: usize = self.batch_size * self.seq_len;
        let q: usize = if self.batch_size == 0 {
            0
        } else {
            proof {
                lemma_nonzero_product(self.batch_size as int, nh as int);
            }
            self.batch_size * nh * (self.seq_len * self.seq_len)
        };
        proof {
            lemma_zero_factor(self.batch_size * nh, self.seq_len * self.seq_len);
            lemma_zero_factor(self.batch_size as int, nh as int);
        }
        proof {
            assert(batch_fits(b as int, t as int, c as int, nh as int, n as int, q as int));
            lemma_batch_fits(b as int, t as int, c as int, nh as int, n as int, q as int);
        }
        proof {
            lemma_smaller_batch(b * t, v as int, n as int, v as int, 0);
        }
        self.inputs = slice_to_vec(inputs);
        if let Some(targets) = targets {
            self.targets = slice_to_vec(targets);
        }
        encoder_forward(
            &mut self.acts.encoded,
            inputs,
            &self.params.wte,
            &self.params.wpe,
            b,
            t,
            c,
        );
        let ghost started = self.acts@;
        forward_layers(&mut self.acts, &self.params, l, n, q, b, t, c, nh);
        let ghost layered = self.acts@;
        proof {
            lemma_layer_bounds(l - 1, l as int, n as int, q as int, c as int);
        }
        let residual = slice_to_vec(row_of(&self.acts.residual3, l - 1, n * c));
        let loss = forward_head(&mut self.acts, &self.params, &residual, targets, b, t, c, v);
        self.mean_loss = loss;
        proof {
            assert forall|k: int| 0 <= k < l implies layer_computed(
                layer_params(ready.params, k, c as int),
                layer_input(self@.acts, k, n as int, c as int),
                layer_acts(ready.acts, k, n as int, q as int, c as int),
                #[trigger] layer_acts(self@.acts, k, n as int, q as int, c as int),
                b as int,
                t as int,
                c as int,
                nh as int,
            ) by {
                assert(layer_acts(started, k, n as int, q as int, c as int) == layer_acts(
                    ready.acts,
                    k,
                    n as int,
                    q as int,
                    c as int,
                ));
                assert(layer_acts(layered, k, n as int, q as int, c as int) == layer_acts(
                    self@.acts,
                    k,
                    n as int,
                    q as int,
                    c as int,
                ));
            }
        }
        Ok(())
    }
}

} // verus!
