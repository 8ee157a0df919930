//! The backward pass.

use vstd::prelude::*;

use crate::buffer::{fill, lemma_splice_row, resize, resized, row, row_mut, row_of};
use crate::crossentropy::{crossentropy_softmax_backward, losses_carried_back};
use crate::encoder::{
    encoder_backward, positions_carried_back, tokens_carried_back, tokens_in_table,
};
use crate::forward::{acts_in_shape, batch_countable, computable, params_cover, places};
use crate::layernorm::{layer_carried_back, layernorm_backward};
use crate::layers::{
    batch_fits, layer_acts, layer_input, layer_params, layers_parametrised, layers_sized,
    lemma_batch_fits, lemma_layer_bounds,
};
use crate::layers_backward::{
    backward_layer, layer_gradients, layer_kept, outer_gradients_kept, outer_params_kept,
    param_tails_kept,
};
use crate::matmul::{input_carried_back, matmul_backward_blas, weight_carried_back};
use crate::model::{no_loss, Model, ModelError, GPT2};
use crate::scalar::{evals, unit, Expr, Scalar, Traced};
use crate::tensors::{
    acts_resized, lemma_acts_fit, ActivationTensors, Acts, ParameterTensors, Params,
};

verus! {

/// The gradients have been carried back through the layers from `m` on.
pub open spec fn layers_carried_back<T: Scalar>(
    p: Params<T>,
    a: Acts<T>,
    dbefore: Acts<T>,
    dafter: Acts<T>,
    pbefore: Params<T>,
    pafter: Params<T>,
    m: int,
    count: int,
    b: int,
    t: int,
    c: int,
    nh: int,
) -> bool {
    forall|k: int|
        m <= k < count ==> layer_gradients(
            layer_params(p, k, c),
            layer_acts(a, k, b * t, (b * nh) * (t * t), c),
            layer_input(a, k, b * t, c),
            layer_acts(dbefore, k, b * t, (b * nh) * (t * t), c),
            #[trigger] layer_acts(dafter, k, b * t, (b * nh) * (t * t), c),
            layer_input(dafter, k, b * t, c),
            layer_params(pbefore, k, c),
            layer_params(pafter, k, c),
            b,
            t,
            c,
            nh,
        )
}

/// Carries the gradients back through the layers, from the last to the first.
pub fn backward_layers<T: Scalar>(
    grads: &mut ParameterTensors<T>,
    dacts: &mut ActivationTensors<T>,
    params: &ParameterTensors<T>,
    acts: &ActivationTensors<T>,
    count: usize,
    b: usize,
    t: usize,
    c: usize,
    nh: usize,
)
    requires
        0 < count,
        layers_parametrised(params@, count as int, c as int),
        layers_parametrised(old(grads)@, count as int, c as int),
        layers_sized(acts@, count as int, b * t, (b * nh) * (t * t), c as int),
        layers_sized(old(dacts)@, count as int, b * t, (b * nh) * (t * t), c as int),
        acts@.encoded.len() == (b * t) * c,
        old(dacts)@.encoded.len() == (b * t) * c,
        batch_fits(b as int, t as int, c as int, nh as int, b * t, (b * nh) * (t * t)),
    ensures
        param_tails_kept(old(grads)@, final(grads)@, count as int, c as int),
        layers_sized(final(dacts)@, count as int, b * t, (b * nh) * (t * t), c as int),
        outer_params_kept(old(grads)@, final(grads)@),
        outer_gradients_kept(old(dacts)@, final(dacts)@, 0),
        row(final(dacts)@.residual3, count - 1, (b * t) * c) == row(
            old(dacts)@.residual3,
            count - 1,
            (b * t) * c,
        ),
        layers_carried_back(
            params@,
            acts@,
            old(dacts)@,
            final(dacts)@,
            old(grads)@,
            final(grads)@,
            0,
            count as int,
            b as int,
            t as int,
            c as int,
            nh as int,
        ),
{
    let ghost dbefore = dacts@;
    let ghost pbefore = grads@;
    let ghost n: int = b * t;
    let ghost q: int = (b * nh) * (t * t);
    for i in 0..count
        invariant
            n == b * t,
            q == (b * nh) * (t * t),
            layers_parametrised(params@, count as int, c as int),
            layers_parametrised(pbefore, count as int, c as int),
            param_tails_kept(pbefore, grads@, count as int, c as int),
            layers_sized(acts@, count as int, n, q, c as int),
            layers_sized(dacts@, count as int, n, q, c as int),
            acts@.encoded.len() == n * c,
            dbefore.encoded.len() == n * c,
            batch_fits(b as int, t as int, c as int, nh as int, n, q),
                outer_params_kept(pbefore, grads@),
            outer_gradients_kept(dbefore, dacts@, count - i),
            row(dacts@.residual3, count - 1, n * c) == row(
                dbefore.residual3,
                count - 1,
                n * c,
            ),
            layers_carried_back(
                params@,
                acts@,
                dbefore,
                dacts@,
                pbefore,
                grads@,
                count - i,
                count as int,
                b as int,
                t as int,
                c as int,
                nh as int,
            ),
            forall|j: int|
                0 <= j < count - i ==> layer_kept(
                    layer_acts(dbefore, j, n, q, c as int),
                    #[trigger] layer_acts(dacts@, j, n, q, c as int),
                ),
            forall|j: int|
                0 <= j < count - i ==> #[trigger] layer_params(grads@, j, c as int)
                    == layer_params(pbefore, j, c as int),
    {
        let ghost dprior = dacts@;
        let ghost pprior = grads@;
        let k: usize = count - 1 - i;
        backward_layer(grads, dacts, params, acts, k, count, b, t, c, nh);
        proof {
            assert(layer_kept(
                layer_acts(dbefore, k as int, n, q, c as int),
                layer_acts(dprior, k as int, n, q, c as int),
            ));
            assert(layer_params(pprior, k as int, c as int) == layer_params(
                pbefore,
                k as int,
                c as int,
            ));
            assert forall|j: int| k <= j < count implies layer_gradients(
                layer_params(params@, j, c as int),
                layer_acts(acts@, j, n, q, c as int),
                layer_input(acts@, j, n, c as int),
                layer_acts(dbefore, j, n, q, c as int),
                #[trigger] layer_acts(dacts@, j, n, q, c as int),
                layer_input(dacts@, j, n, c as int),
                layer_params(pbefore, j, c as int),
                layer_params(grads@, j, c as int),
                b as int,
                t as int,
                c as int,
                nh as int,
            ) by {
                if j > k {
                    let a0 = layer_acts(dprior, j, n, q, c as int);
                    let a = layer_acts(dacts@, j, n, q, c as int);
                    assert(layer_kept(a0, a));
                    assert(row(dacts@.residual3, j, n * c) == row(dprior.residual3, j, n * c));
                    assert(a == a0);
                    assert(row(dacts@.residual3, j - 1, n * c) == row(
                        dprior.residual3,
                        j - 1,
                        n * c,
                    ));
                    assert(layer_params(grads@, j, c as int) == layer_params(
                        pprior,
                        j,
                        c as int,
                    ));
                }
            }
            assert forall|j: int| 0 <= j < k implies layer_kept(
                layer_acts(dbefore, j, n, q, c as int),
                #[trigger] layer_acts(dacts@, j, n, q, c as int),
            ) by {
                assert(layer_kept(
                    layer_acts(dbefore, j, n, q, c as int),
                    layer_acts(dprior, j, n, q, c as int),
                ));
            }
            assert forall|j: int| 0 <= j < k implies #[trigger] layer_params(grads@, j, c as int)
                == layer_params(pbefore, j, c as int) by {
                assert(layer_params(pprior, j, c as int) == layer_params(pbefore, j, c as int));
            }
        }
    }
}

/// The gradients of the mean loss have been carried back to all activations and parameters, with
/// `dwte` the gradient of the token embeddings before that of the inputs is added.
pub open spec fn model_gradients_by<T: Scalar>(
    p: Params<T>,
    a: Acts<T>,
    inputs: Seq<i32>,
    targets: Seq<i32>,
    dbefore: Acts<T>,
    dafter: Acts<T>,
    pbefore: Params<T>,
    pafter: Params<T>,
    count: int,
    b: int,
    t: int,
    c: int,
    nh: int,
    v: int,
    dloss: T,
    dwte: Seq<T>,
) -> bool {
    let n = b * t;
    &&& evals(unit().over(Expr::Count(n as usize)), dloss)
    &&& dafter.losses == Seq::new(dbefore.losses.len(), |i: int| dloss)
    &&& losses_carried_back(
        dbefore.logits,
        dafter.logits,
        dafter.losses,
        a.probs,
        targets,
        n,
        v,
    )
    &&& input_carried_back(dbefore.lnf, dafter.lnf, dafter.logits, p.wte, n, c, v)
    &&& weight_carried_back(pbefore.wte, dwte, dafter.logits, a.lnf, n, c, v)
    &&& layer_carried_back(
        row(dbefore.residual3, count - 1, n * c),
        row(dafter.residual3, count - 1, n * c),
        pbefore.lnfw,
        pafter.lnfw,
        pbefore.lnfb,
        pafter.lnfb,
        dafter.lnf,
        row(a.residual3, count - 1, n * c),
        p.lnfw,
        a.lnf_mean,
        a.lnf_rstd,
        n,
        c,
    )
    &&& layers_sized(dafter, count, n, (b * nh) * (t * t), c)
    &&& param_tails_kept(pbefore, pafter, count, c)
    &&& layers_carried_back(p, a, dbefore, dafter, pbefore, pafter, 0, count, b, t, c, nh)
    &&& tokens_carried_back(dwte, pafter.wte, dafter.encoded, inputs, c, n)
    &&& positions_carried_back(pbefore.wpe, pafter.wpe, dafter.encoded, t, c, n)
    &&& dafter.lnf_mean == dbefore.lnf_mean
    &&& dafter.lnf_rstd == dbefore.lnf_rstd
    &&& dafter.probs == dbefore.probs
}

/// The gradients of the mean loss of the last batch have been carried back to the gradients of
/// the activations and of the parameters.
pub open spec fn model_carried_back<T: Scalar>(ready: Model<T>, after: Model<T>) -> bool {
    &&& after == (Model { grads: after.grads, grads_acts: after.grads_acts, ..ready })
    &&& exists|dloss: T, dwte: Seq<T>| #[trigger]
        model_gradients_by(
            ready.params,
            ready.acts,
            ready.inputs,
            ready.targets,
            ready.grads_acts,
            after.grads_acts,
            ready.grads,
            after.grads,
            ready.config.num_layers as int,
            ready.batch_size as int,
            ready.seq_len as int,
            ready.config.channels as int,
            ready.config.num_heads as int,
            ready.config.vocab_size as int,
            dloss,
            dwte,
        )
}

/// The comparison of the mean loss with minus one may come out as `r`.
pub open spec fn lacks_loss<T: Scalar>(mean_loss: T, r: bool) -> bool {
    exists|unset: T| #[trigger]
        evals(no_loss(), unset) && call_ensures(T::eq, (mean_loss, unset), r)
}

/// The last batch had tokens that there are gradients for and targets, and all tensors have the
/// sizes that it asks for.
pub open spec fn can_backward<T>(model: Model<T>) -> bool {
    let n = places(model);
    &&& computable(model)
    &&& n <= i32::MAX
    &&& model.batch_size > 0 ==> model.seq_len * model.config.channels <= model.grads.wpe.len()
    &&& tokens_in_table(
        model.inputs,
        n,
        model.config.channels as int,
        model.grads.wte.len() as int,
    )
    &&& n <= model.targets.len()
    &&& batch_countable(model, model.batch_size, model.seq_len)
    &&& acts_in_shape(model, model.acts)
    &&& params_cover(
        model.grads,
        model.config.num_layers as int,
        model.config.channels as int,
        model.config.vocab_size as int,
    )
    &&& model.grads_memory.len() > 0 ==> acts_in_shape(model, model.grads_acts)
}

/// Room has been made for the gradients, unless there was.
pub open spec fn gradient_room_made<T: Scalar>(before: Model<T>, ready: Model<T>) -> bool {
    if before.grads_memory.len() == 0 {
        &&& ready == (Model {
            grads_memory: ready.grads_memory,
            grads_acts: ready.grads_acts,
            ..before
        })
        &&& resized(before.grads_memory, ready.grads_memory, before.num_parameters as int)
        &&& acts_resized(
            before.grads_acts,
            ready.grads_acts,
            before.batch_size as int,
            before.seq_len as int,
            before.config.num_layers as int,
            before.config.num_heads as int,
            before.config.channels as int,
            before.config.vocab_size as int,
        )
    } else {
        ready == before
    }
}

/// What a call for the gradients comes to: the gradients have been carried back, unless the mean
/// loss was found to be minus one.
pub open spec fn backward_outcome<T: Scalar>(
    before: Model<T>,
    after: Model<T>,
    r: Result<(), ModelError>,
) -> bool {
    match r {
        Ok(_) => {
            &&& lacks_loss(before.mean_loss, false)
            &&& exists|ready: Model<T>| #[trigger]
                gradient_room_made(before, ready) && model_carried_back(ready, after)
        },
        Err(e) => {
            &&& lacks_loss(before.mean_loss, true)
            &&& e == ModelError::NoTargets
            &&& after == before
        },
    }
}

impl<T: Scalar> GPT2<T> {
    /// Carries the gradient of the mean loss back to the parameters.
    pub fn backward(&mut self) -> (r: Result<(), ModelError>)
        requires
            lacks_loss(old(self)@.mean_loss, false) ==> can_backward(old(self)@),
        ensures
            backward_outcome(old(self)@, final(self)@, r),
    {
        let unset = Traced::<T>::one().neg();
        if self.mean_loss.eq(unset.v) {
            return Err(ModelError::NoTargets);
        }
        let b = self.batch_size;
        let t = self.seq_len;
        let v = self.config.vocab_size;
        let l = self.config.num_layers;
        let c = self.config.channels;
        let nh = self.config.num_heads;
        assert(lacks_loss(old(self)@.mean_loss, false));
        if self.grads_memory.is_empty() {
            resize(&mut self.grads_memory, self.num_parameters);
            self.allocate_grad_activation_tensors(b, t, l, nh, c, v);
        }
        let ghost ready = self@;
        assert(gradient_room_made(old(self)@, ready));
        let ghost q: int = (b * nh) * (t * t);
        proof {
            lemma_acts_fit(b as int, t as int, l as int, nh as int, c as int, v as int);
            assert(acts_in_shape(ready, ready.grads_acts));
            assert(batch_fits(b as int, t as int, c as int, nh as int, b * t, q));
            lemma_batch_fits(b as int, t as int, c as int, nh as int, b * t, q);
            lemma_layer_bounds(l - 1, l as int, b * t, q, c as int);
        }
        let n: usize = b * t;
        let nc: usize = n * c;
        let dloss = Traced::one().over(&Traced::count(n)).v;
        fill(&mut self.grads_acts.losses, dloss);
        crossentropy_softmax_backward(
            &mut self.grads_acts.logits,
            &self.grads_acts.losses,
            &self.acts.probs,
            &self.targets,
            b,
            t,
            v,
        );
        matmul_backward_blas(
            &mut self.grads_acts.lnf,
            &mut self.grads.wte,
            None,
            &self.grads_acts.logits,
            &self.acts.lnf,
            &self.params.wte,
            b,
            t,
            c,
            v,
        );
        let ghost dwte = self.grads@.wte;
        assert(dwte.len() == ready.grads.wte.len());
        let dresidual = row_mut(&mut self.grads_acts.residual3, l - 1, nc);
        layernorm_backward(
            dresidual,
            &mut self.grads.lnfw,
            &mut self.grads.lnfb,
            &self.grads_acts.lnf,
            row_of(&self.acts.residual3, l - 1, nc),
            &self.params.lnfw,
            &self.acts.lnf_mean,
            &self.acts.lnf_rstd,
            b,
            t,
            c,
        );
        let ghost dlast_row = dresidual@;
        proof {
            lemma_splice_row(ready.grads_acts.residual3, l - 1, nc as int, dlast_row);
        }
        let ghost dmid = self.grads_acts@;
        let ghost pmid = self.grads@;
        backward_layers(
            &mut self.grads,
            &mut self.grads_acts,
            &self.params,
            &self.acts,
            l,
            b,
            t,
            c,
            nh,
        );
        let ghost plast = self.grads@;
        assert(self.grads.wte.len() == dwte.len());
        encoder_backward(
            &mut self.grads.wte,
            &mut self.grads.wpe,
            &self.grads_acts.encoded,
            &self.inputs,
            b,
            t,
            c,
        );
        proof {
            let dlast = self.grads_acts@;
            assert forall|k: int| 0 <= k < l implies layer_gradients(
                layer_params(ready.params, k, c as int),
                layer_acts(ready.acts, k, b * t, q, c as int),
                layer_input(ready.acts, k, b * t, c as int),
                layer_acts(ready.grads_acts, k, b * t, q, c as int),
                #[trigger] layer_acts(dlast, k, b * t, q, c as int),
                layer_input(dlast, k, b * t, c as int),
                layer_params(ready.grads, k, c as int),
                layer_params(self.grads@, k, c as int),
                b as int,
                t as int,
                c as int,
                nh as int,
            ) by {
                assert(layer_kept(
                    layer_acts(ready.grads_acts, k, b * t, q, c as int),
                    layer_acts(dmid, k, b * t, q, c as int),
                ));
                assert(layer_params(pmid, k, c as int) == layer_params(
                    ready.grads,
                    k,
                    c as int,
                ));
                assert(layer_params(plast, k, c as int) == layer_params(
                    self.grads@,
                    k,
                    c as int,
                ));
            }
            assert(model_gradients_by(
                ready.params,
                ready.acts,
                ready.inputs,
                ready.targets,
                ready.grads_acts,
                dlast,
                ready.grads,
                self.grads@,
                l as int,
                b as int,
                t as int,
                c as int,
                nh as int,
                v as int,
                dloss,
                dwte,
            ));
        }
        Ok(())
    }
}

} // verus!
