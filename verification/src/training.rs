//! Training steps, and what every operation on a model keeps.

use vstd::prelude::*;

use crate::backward::{
    can_backward, gradient_room_made, lacks_loss, model_carried_back, model_gradients_by,
};
use crate::buffer::splice;
use crate::checkpoint::{checkpoint_loaded, lemma_param_sizes};
use crate::forward::{acts_in_shape, batch_computed, can_forward, computable, room_made};
use crate::model::{moments_start, stepped, Model, ModelError, GPT2};
use crate::scalar::{evals, nought, sum, total, Expr, Scalar, Traced};
use crate::tensors::{
    acts_zeroed, ints, lemma_offsets, lemma_pack_unpacked, lemma_unpack_packed, offset, packed,
    param_sizes, parameter_count, params_sized, params_zeroed, unpacked, zeroed,
};

verus! {

/// There is memory for the parameters that the shape of the model asks for, and the gradients and
/// the moments of the optimiser, where there are any yet, fit the parameters.
pub open spec fn trainable<T>(model: Model<T>) -> bool {
    &&& computable(model)
    &&& ints(model.param_sizes) == param_sizes(model.config)
    &&& model.num_parameters == parameter_count(model.config)
    &&& model.params_memory.len() == model.num_parameters
    &&& params_sized(model.params, param_sizes(model.config))
    &&& params_sized(model.grads, param_sizes(model.config))
    &&& model.grads_memory.len() == 0 || model.grads_memory.len() == model.num_parameters
    &&& model.m_memory.len() == 0 || model.m_memory.len() == model.num_parameters
    &&& model.m_memory.len() == model.v_memory.len()
    &&& model.acts_memory.len() == 0
}

/// The parameter tensors hold what lies in the memory of the parameters.
pub open spec fn in_step<T>(model: Model<T>) -> bool {
    model.params == unpacked(model.params_memory, param_sizes(model.config))
}

/// The sizes of a model that can be computed add up to more than nothing.
pub proof fn lemma_parameters_positive<T>(model: Model<T>)
    requires
        computable(model),
    ensures
        param_sizes(model.config).len() == 16,
        forall|k: int| 0 <= k < 16 ==> 0 <= #[trigger] param_sizes(model.config)[k],
        0 < parameter_count(model.config),
        offset(param_sizes(model.config), 16) == parameter_count(model.config),
{
    let sizes = param_sizes(model.config);
    lemma_param_sizes(model.config);
    lemma_offsets(sizes);
    assert(0 <= offset(sizes, 15) <= offset(sizes, 15) + sizes[15] == offset(sizes, 16));
}

/// A model that was loaded can be trained, if its shape is one that can be computed.
pub proof fn lemma_loaded_trainable<T: Scalar>(before: Model<T>, after: Model<T>, bytes: Seq<u8>)
    requires
        checkpoint_loaded(before, after, bytes),
        computable(after),
    ensures
        trainable(after),
        in_step(after),
{
    lemma_parameters_positive(after);
}

/// Parameters that lie in memory are the tensors one behind the other, and they fill it.
pub proof fn lemma_parameters_in_memory<T>(model: Model<T>)
    requires
        trainable(model),
        in_step(model),
    ensures
        packed(model.params) == model.params_memory,
{
    lemma_parameters_positive(model);
    lemma_pack_unpacked(model.params_memory, param_sizes(model.config));
    assert(model.params_memory.subrange(0, model.params_memory.len() as int)
        =~= model.params_memory);
}

/// Computing a batch, where the room for it is not fixed, leaves activations of the sizes that it
/// asks for.
pub proof fn lemma_forward_shapes<T: Scalar>(
    before: Model<T>,
    ready: Model<T>,
    after: Model<T>,
    inputs: Seq<i32>,
    targets: Option<Seq<i32>>,
    b: usize,
    t: usize,
)
    requires
        before.acts_memory.len() == 0,
        room_made(before, ready, b, t),
        batch_computed(ready, after, inputs, targets, b, t),
    ensures
        acts_in_shape(after, after.acts),
        acts_in_shape(after, after.grads_acts),
{
    assert(acts_in_shape(ready, ready.acts));
    assert(acts_in_shape(ready, ready.grads_acts));
}

/// Computing a batch keeps a model trainable. With targets, its gradients can be computed next.
pub proof fn lemma_forward_keeps<T: Scalar>(
    before: Model<T>,
    ready: Model<T>,
    after: Model<T>,
    inputs: Seq<i32>,
    targets: Option<Seq<i32>>,
    b: usize,
    t: usize,
)
    requires
        trainable(before),
        can_forward(before, inputs, targets, b, t),
        room_made(before, ready, b, t),
        batch_computed(ready, after, inputs, targets, b, t),
    ensures
        trainable(after),
        in_step(before) ==> in_step(after),
        acts_in_shape(after, after.acts),
        acts_in_shape(after, after.grads_acts),
        targets is Some ==> can_backward(after),
{
    lemma_forward_shapes(before, ready, after, inputs, targets, b, t);
}

/// Setting the gradients to zero keeps a model trainable, and its gradients can still be
/// computed.
pub proof fn lemma_zero_grad_keeps<T: Scalar>(before: Model<T>, after: Model<T>)
    requires
        trainable(before),
        zeroed(before.grads_memory, after.grads_memory),
        params_zeroed(before.grads, after.grads),
        acts_zeroed(before.grads_acts, after.grads_acts),
        after == (Model {
            grads_memory: after.grads_memory,
            grads: after.grads,
            grads_acts: after.grads_acts,
            ..before
        }),
    ensures
        trainable(after),
        in_step(before) ==> in_step(after),
        can_backward(before) ==> can_backward(after),
{
}

/// Computing the gradients keeps a model trainable, and the gradients fit into their memory.
pub proof fn lemma_backward_keeps<T: Scalar>(before: Model<T>, ready: Model<T>, after: Model<T>)
    requires
        trainable(before),
        can_backward(before),
        gradient_room_made(before, ready),
        model_carried_back(ready, after),
    ensures
        trainable(after),
        in_step(before) ==> in_step(after),
        after.grads_memory.len() == after.num_parameters,
        packed(after.grads).len() == after.num_parameters,
{
    let (dloss, dwte) = choose|dloss: T, dwte: Seq<T>| #[trigger]
        model_gradients_by(
            ready.params,
            ready.acts,
            ready.inputs,
            ready.targets,
            ready.grads_acts,
            after.grads_acts,
            ready.grads,
            after.grads,
            ready.config.num_layers as int,
            ready.batch_size as int,
            ready.seq_len as int,
            ready.config.channels as int,
            ready.config.num_heads as int,
            ready.config.vocab_size as int,
            dloss,
            dwte,
        );
    lemma_parameters_positive(before);
    assert(dwte.len() == ready.grads.wte.len());
    lemma_unpack_packed(after.grads, param_sizes(after.config));
}

/// Gradients that were copied to memory are found there.
pub proof fn lemma_gradients_in_memory<T>(before: Model<T>, after: Model<T>)
    requires
        trainable(before),
        before.grads_memory.len() == before.num_parameters,
        after == (Model {
            grads_memory: splice(before.grads_memory, 0, packed(before.grads)),
            ..before
        }),
    ensures
        trainable(after),
        in_step(before) ==> in_step(after),
        after.grads_memory == packed(after.grads),
        unpacked(after.grads_memory, param_sizes(after.config)) == after.grads,
{
    lemma_parameters_positive(before);
    lemma_unpack_packed(before.grads, param_sizes(before.config));
    assert(after.grads_memory =~= packed(before.grads));
}

/// A step of the optimiser keeps a model trainable.
pub proof fn lemma_update_keeps<T: Scalar>(
    before: Model<T>,
    after: Model<T>,
    m0: Seq<T>,
    v0: Seq<T>,
    learning_rate: T,
    beta1: T,
    beta2: T,
    eps: T,
    weight_decay: T,
    t: usize,
)
    requires
        trainable(before),
        moments_start(before, m0, v0),
        stepped(
            before.params_memory,
            after.params_memory,
            m0,
            after.m_memory,
            v0,
            after.v_memory,
            before.grads_memory,
            before.num_parameters as int,
            learning_rate,
            beta1,
            beta2,
            eps,
            weight_decay,
            t,
        ),
        after == (Model {
            params: unpacked(after.params_memory, ints(before.param_sizes)),
            params_memory: after.params_memory,
            m_memory: after.m_memory,
            v_memory: after.v_memory,
            ..before
        }),
    ensures
        trainable(after),
        in_step(after),
{
    lemma_parameters_positive(before);
    lemma_pack_unpacked(after.params_memory, param_sizes(before.config));
}

/// The number of training steps of a run.
pub const TRAINING_STEPS: usize = 20;

/// The number of batches that the validation loss is the mean of.
pub const VALIDATION_BATCHES: usize = 10;

/// Whether the validation loss is estimated after a step: at every twentieth.
pub fn validates(step: usize) -> (r: bool)
    ensures
        r == (step as int % 20 == 0),
{
    step % 20 == 0
}

/// Whether text is generated after a step: at every twentieth but the first.
pub fn infers(step: usize) -> (r: bool)
    ensures
        r == (step > 0 && step as int % 20 == 0),
{
    step > 0 && step % 20 == 0
}

/// The mean of losses, added up from zero in their order.
pub fn mean_of_losses<T: Scalar>(losses: &[T]) -> (mean: T)
    ensures
        evals(
            total(losses@, losses@.len() as int).over(Expr::Count(losses@.len() as usize)),
            mean,
        ),
{
    sum(losses).over(&Traced::count(losses.len())).v
}

/// The numbers that a step of the optimiser is taken with.
#[verifier::ext_equal]
pub struct Rates<T> {
    pub learning_rate: T,
    pub beta1: T,
    pub beta2: T,
    pub eps: T,
    pub weight_decay: T,
}

/// The numbers are those of every training step: a learning rate of 0.0001, rates of 0.9 and
/// 0.999 for the moments, 0.00000001 against division by zero, and no decay of the weights.
pub open spec fn training_rates<T: Scalar>(rates: Rates<T>) -> bool {
    &&& evals(Expr::Decimal(1, 4), rates.learning_rate)
    &&& evals(Expr::Decimal(9, 1), rates.beta1)
    &&& evals(Expr::Decimal(999, 3), rates.beta2)
    &&& evals(Expr::Decimal(1, 8), rates.eps)
    &&& evals(nought(), rates.weight_decay)
}

/// A batch has been computed.
pub open spec fn forwarded<T: Scalar>(
    before: Model<T>,
    after: Model<T>,
    inputs: Seq<i32>,
    targets: Option<Seq<i32>>,
    b: usize,
    t: usize,
) -> bool {
    exists|ready: Model<T>| #[trigger]
        room_made(before, ready, b, t) && batch_computed(ready, after, inputs, targets, b, t)
}

/// The gradients have been set to zero.
pub open spec fn gradients_cleared<T: Scalar>(before: Model<T>, after: Model<T>) -> bool {
    &&& zeroed(before.grads_memory, after.grads_memory)
    &&& params_zeroed(before.grads, after.grads)
    &&& acts_zeroed(before.grads_acts, after.grads_acts)
    &&& after == (Model {
        grads_memory: after.grads_memory,
        grads: after.grads,
        grads_acts: after.grads_acts,
        ..before
    })
}

/// The gradients have been computed, or the loss was found to be missing.
pub open spec fn backwarded<T: Scalar>(before: Model<T>, after: Model<T>) -> bool {
    ||| {
        &&& lacks_loss(before.mean_loss, false)
        &&& exists|ready: Model<T>| #[trigger]
            gradient_room_made(before, ready) && model_carried_back(ready, after)
    }
    ||| lacks_loss(before.mean_loss, true) && after == before
}

/// The optimiser has taken step `t` along the gradients in memory.
pub open spec fn updated<T: Scalar>(
    before: Model<T>,
    after: Model<T>,
    rates: Rates<T>,
    t: usize,
) -> bool {
    &&& exists|m0: Seq<T>, v0: Seq<T>| #[trigger]
        moments_start(before, m0, v0) && stepped(
            before.params_memory,
            after.params_memory,
            m0,
            after.m_memory,
            v0,
            after.v_memory,
            before.grads_memory,
            before.num_parameters as int,
            rates.learning_rate,
            rates.beta1,
            rates.beta2,
            rates.eps,
            rates.weight_decay,
            t,
        )
    &&& after == (Model {
        params: unpacked(after.params_memory, ints(before.param_sizes)),
        params_memory: after.params_memory,
        m_memory: after.m_memory,
        v_memory: after.v_memory,
        ..before
    })
}

/// The stages of a training step: the batch computed, the gradients cleared, the gradients
/// computed.
#[verifier::ext_equal]
pub struct Stages<T> {
    pub computed: Model<T>,
    pub cleared: Model<T>,
    pub carried: Model<T>,
    pub rates: Rates<T>,
}

/// Training step `step` has been taken through the given stages.
pub open spec fn trained_by<T: Scalar>(
    before: Model<T>,
    after: Model<T>,
    inputs: Seq<i32>,
    targets: Seq<i32>,
    b: usize,
    t: usize,
    step: usize,
    stages: Stages<T>,
) -> bool {
    &&& forwarded(before, stages.computed, inputs, Some(targets), b, t)
    &&& gradients_cleared(stages.computed, stages.cleared)
    &&& backwarded(stages.cleared, stages.carried)
    &&& training_rates(stages.rates)
    &&& updated(
        (Model {
            grads_memory: splice(stages.carried.grads_memory, 0, packed(stages.carried.grads)),
            ..stages.carried
        }),
        after,
        stages.rates,
        (step + 1) as usize,
    )
}

/// A training step has come to an end before the optimiser: the loss was found to be missing, and
/// there is no memory for gradients yet.
pub open spec fn training_stopped<T: Scalar>(
    before: Model<T>,
    after: Model<T>,
    inputs: Seq<i32>,
    targets: Seq<i32>,
    b: usize,
    t: usize,
    computed: Model<T>,
) -> bool {
    &&& forwarded(before, computed, inputs, Some(targets), b, t)
    &&& gradients_cleared(computed, after)
    &&& lacks_loss(after.mean_loss, true)
    &&& after.grads_memory.len() == 0
}

/// The first part of a training step: computes a batch, and sets the gradients to zero. Gives the
/// mean loss.
pub fn compute_step<T: Scalar>(
    model: &mut GPT2<T>,
    inputs: &[i32],
    targets: &[i32],
    b: usize,
    t: usize,
) -> (loss: T)
    requires
        trainable(old(model)@),
        can_forward(old(model)@, inputs@, Some(targets@), b, t),
    ensures
        trainable(final(model)@),
        in_step(old(model)@) ==> in_step(final(model)@),
        can_backward(final(model)@),
        loss == final(model)@.mean_loss,
        exists|computed: Model<T>| #[trigger]
            forwarded(old(model)@, computed, inputs@, Some(targets@), b, t)
                && gradients_cleared(computed, final(model)@),
{
    let ghost before = model@;
    proof {
        lemma_parameters_positive(before);
    }
    let _ = model.forward(inputs, Some(targets), b, t);
    let ghost computed = model@;
    proof {
        let ready = choose|ready: Model<T>| #[trigger]
            room_made(before, ready, b, t) && batch_computed(
                ready,
                computed,
                inputs@,
                Some(targets@),
                b,
                t,
            );
        lemma_forward_keeps(before, ready, computed, inputs@, Some(targets@), b, t);
        assert(forwarded(before, computed, inputs@, Some(targets@), b, t));
    }
    model.zero_grad();
    proof {
        lemma_zero_grad_keeps(computed, model@);
    }
    model.mean_loss
}

/// The last part of training step `step`: copies the gradients to memory, and lets the optimiser
/// take its step.
pub fn apply_step<T: Scalar>(model: &mut GPT2<T>, step: usize)
    requires
        trainable(old(model)@),
        old(model)@.grads_memory.len() == old(model)@.num_parameters,
        step < usize::MAX,
    ensures
        trainable(final(model)@),
        in_step(final(model)@),
        exists|rates: Rates<T>| #[trigger]
            training_rates(rates) && updated(
                (Model {
                    grads_memory: splice(old(model)@.grads_memory, 0, packed(old(model)@.grads)),
                    ..old(model)@
                }),
                final(model)@,
                rates,
                (step + 1) as usize,
            ),
{
    let ghost carried = model@;
    proof {
        lemma_parameters_positive(carried);
        lemma_unpack_packed(carried.grads, param_sizes(carried.config));
    }
    model.update_grads_memory();
    let ghost copied = model@;
    let learning_rate = Traced::decimal(1, 4);
    let beta1 = Traced::decimal(9, 1);
    let beta2 = Traced::decimal(999, 3);
    let eps = Traced::decimal(1, 8);
    let weight_decay = Traced::zero();
    proof {
        lemma_gradients_in_memory(carried, copied);
    }
    model.update(learning_rate.v, beta1.v, beta2.v, eps.v, weight_decay.v, step + 1);
    proof {
        let rates = Rates {
            learning_rate: learning_rate.v,
            beta1: beta1.v,
            beta2: beta2.v,
            eps: eps.v,
            weight_decay: weight_decay.v,
        };
        let (m0, v0) = choose|m0: Seq<T>, v0: Seq<T>| #[trigger]
            moments_start(copied, m0, v0) && stepped(
                copied.params_memory,
                model@.params_memory,
                m0,
                model@.m_memory,
                v0,
                model@.v_memory,
                copied.grads_memory,
                copied.num_parameters as int,
                learning_rate.v,
                beta1.v,
                beta2.v,
                eps.v,
                weight_decay.v,
                (step + 1) as usize,
            );
        lemma_update_keeps(
            copied,
            model@,
            m0,
            v0,
            learning_rate.v,
            beta1.v,
            beta2.v,
            eps.v,
            weight_decay.v,
            (step + 1) as usize,
        );
        assert(updated(copied, model@, rates, (step + 1) as usize));
        assert(training_rates(rates));
    }
}

/// Takes training step `step` on a batch, and gives its mean loss.
pub fn train_step<T: Scalar>(
    model: &mut GPT2<T>,
    inputs: &[i32],
    targets: &[i32],
    b: usize,
    t: usize,
    step: usize,
) -> (r: Result<T, ModelError>)
    requires
        trainable(old(model)@),
        can_forward(old(model)@, inputs@, Some(targets@), b, t),
        step < usize::MAX,
    ensures
        trainable(final(model)@),
        in_step(old(model)@) ==> in_step(final(model)@),
        match r {
            Ok(loss) => exists|stages: Stages<T>| #[trigger]
                trained_by(
                    old(model)@,
                    final(model)@,
                    inputs@,
                    targets@,
                    b,
                    t,
                    step,
                    stages,
                ) && loss == stages.computed.mean_loss,
            Err(e) => e == ModelError::NoTargets && exists|computed: Model<T>| #[trigger]
                training_stopped(
                    old(model)@,
                    final(model)@,
                    inputs@,
                    targets@,
                    b,
                    t,
                    computed,
                ),
        },
{
    let ghost before = model@;
    let loss = compute_step(model, inputs, targets, b, t);
    let ghost cleared = model@;
    let ghost computed = choose|computed: Model<T>| #[trigger]
        forwarded(before, computed, inputs@, Some(targets@), b, t) && gradients_cleared(
            computed,
            cleared,
        );
    let done = model.backward();
    let ghost carried = model@;
    proof {
        if done is Ok {
            let ready = choose|ready: Model<T>| #[trigger]
                gradient_room_made(cleared, ready) && model_carried_back(ready, carried);
            lemma_backward_keeps(cleared, ready, carried);
        }
        assert(backwarded(cleared, carried));
        lemma_parameters_positive(carried);
    }
    if model.grads_memory.is_empty() {
        assert(training_stopped(before, model@, inputs@, targets@, b, t, computed));
        return Err(ModelError::NoTargets);
    }
    apply_step(model, step);
    proof {
        let copied = Model {
            grads_memory: splice(carried.grads_memory, 0, packed(carried.grads)),
            ..carried
        };
        let rates = choose|rates: Rates<T>| #[trigger]
            training_rates(rates) && updated(copied, model@, rates, (step + 1) as usize);
        let stages = Stages { computed, cleared, carried, rates };
        assert(trained_by(before, model@, inputs@, targets@, b, t, step, stages));
    }
    Ok(loss)
}

} // verus!
