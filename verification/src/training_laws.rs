//! What training steps come to.

use vstd::prelude::*;

use crate::buffer::splice;
use crate::determinism::{functional, lemma_one_value};
use crate::backward::{gradient_room_made, lacks_loss, model_carried_back};
use crate::backward_numbers::{batch_back_by_numbers, lemma_backward_by_numbers};
use crate::forward::{batch_computed, can_forward, room_made, too_large};
use crate::forward_numbers::{all_exact, batch_by_numbers, lemma_forward_by_numbers};
use crate::gradient_laws::{
    lemma_backward_refused, lemma_cleared_to_nothing, lemma_room_of_nothing, no_acts, no_params,
};
use crate::kernel_numbers::loses;
use crate::layout_laws::{laid_out, lemma_packed_layout, lemma_unpacked_layout};
use crate::model::{Model, ModelError};
use crate::optimiser_laws::{
    lemma_steady_pace, lemma_training_rates, magnitude, steps_taken,
};
use crate::reals::{exact, exact_roots, lemma_quotient, rsum, Reading};
use crate::scalar::{nought, Expr, Scalar};
use crate::tensors::{ints, packed, param_sizes, parameter_count, params_sized, Acts, Params};
use crate::training::{
    backwarded, lemma_forward_keeps, lemma_zero_grad_keeps, trainable, trained_by, training_rates,
    updated, Rates, Stages,
};

verus! {

/// The model that the optimiser of a training step is run on.
pub open spec fn stepped_from<T>(stages: Stages<T>) -> Model<T> {
    Model {
        grads_memory: splice(
            stages.carried.grads_memory,
            0,
            packed(stages.carried.grads),
        ),
        ..stages.carried
    }
}

/// But for the gradients, computing a batch and its gradients leaves to the optimiser what it
/// needs.
proof fn lemma_step_keeps<T: Scalar>(
    before: Model<T>,
    after: Model<T>,
    inputs: Seq<i32>,
    targets: Seq<i32>,
    b: usize,
    t: usize,
    step: usize,
    stages: Stages<T>,
)
    requires
        trained_by(before, after, inputs, targets, b, t, step, stages),
    ensures
        stepped_from(stages).config == before.config,
        stepped_from(stages).param_sizes == before.param_sizes,
        stepped_from(stages).params_memory == before.params_memory,
        stepped_from(stages).num_parameters == before.num_parameters,
        stepped_from(stages).m_memory == before.m_memory,
        stepped_from(stages).v_memory == before.v_memory,
        stepped_from(stages).grads == after.grads,
        stepped_from(stages).grads_memory == after.grads_memory,
        updated(stepped_from(stages), after, stages.rates, (step + 1) as usize),
{
    let ready = choose|ready: Model<T>| #[trigger]
        room_made(before, ready, b, t) && batch_computed(
            ready,
            stages.computed,
            inputs,
            Some(targets),
            b,
            t,
        );
    assert(stages.computed.params_memory == before.params_memory);
}

/// The numbers of a training step are the same in every step.
proof fn lemma_same_rates<T: Scalar>(x: Rates<T>, y: Rates<T>)
    requires
        functional::<T>(),
        training_rates(x),
        training_rates(y),
    ensures
        x == y,
{
    lemma_one_value(Expr::Decimal(1, 4), x.learning_rate, y.learning_rate);
    lemma_one_value(Expr::Decimal(9, 1), x.beta1, y.beta1);
    lemma_one_value(Expr::Decimal(999, 3), x.beta2, y.beta2);
    lemma_one_value(Expr::Decimal(1, 8), x.eps, y.eps);
    lemma_one_value(nought(), x.weight_decay, y.weight_decay);
}

/// Training follows a gradient that stays the same at the same pace from the first step on: where
/// the gradient of a parameter has been `g` in training steps 0, 1 and so on of a model without
/// moments, each of them moves the parameter against it by one over ten thousand, times `g` over
/// its magnitude and one over a hundred million.
pub proof fn lemma_training_pace<T: Scalar>(
    r: Reading<T>,
    before: Seq<Model<T>>,
    after: Seq<Model<T>>,
    inputs: Seq<Seq<i32>>,
    targets: Seq<Seq<i32>>,
    b: usize,
    t: usize,
    stages: Seq<Stages<T>>,
    i: int,
    g: real,
    n: int,
)
    requires
        exact(r),
        exact_roots(r),
        functional::<T>(),
        0 < n <= before.len() == after.len() == stages.len() < i32::MAX,
        before[0].m_memory.len() == 0,
        forall|s: int|
            0 <= s < before.len() ==> #[trigger] trained_by(
                before[s],
                after[s],
                inputs[s],
                targets[s],
                b,
                t,
                s as usize,
                stages[s],
            ),
        forall|s: int|
            0 < s < before.len() ==> (#[trigger] before[s]).m_memory == after[s - 1].m_memory
                && before[s].v_memory == after[s - 1].v_memory,
        forall|s: int|
            0 <= s < before.len() ==> 0 <= i < (#[trigger] before[s]).num_parameters
                <= before[s].params_memory.len(),
        forall|s: int|
            0 <= s < before.len() ==> (r.val)((#[trigger] after[s]).grads_memory[i]) == g,
    ensures
        (r.val)(after[n - 1].params_memory[i]) == (r.val)(before[n - 1].params_memory[i]) - (g / (
        magnitude(g) + 1real / 100000000real)) / 10000real,
{
    let rates = stages[0].rates;
    let from = Seq::new(before.len(), |s: int| stepped_from(stages[s]));
    assert forall|s: int| 0 <= s < before.len() implies {
        &&& #[trigger] updated(from[s], after[s], rates, (s + 1) as usize)
        &&& from[s].m_memory == before[s].m_memory
        &&& from[s].v_memory == before[s].v_memory
        &&& from[s].num_parameters == before[s].num_parameters
        &&& from[s].params_memory == before[s].params_memory
        &&& from[s].grads_memory == after[s].grads_memory
    } by {
        assert(trained_by(
            before[s],
            after[s],
            inputs[s],
            targets[s],
            b,
            t,
            s as usize,
            stages[s],
        ));
        lemma_step_keeps(
            before[s],
            after[s],
            inputs[s],
            targets[s],
            b,
            t,
            s as usize,
            stages[s],
        );
        assert(trained_by(
            before[0],
            after[0],
            inputs[0],
            targets[0],
            b,
            t,
            0int as usize,
            stages[0],
        ));
        lemma_same_rates(stages[s].rates, rates);
    }
    assert(updated(from[0], after[0], rates, (0 + 1) as usize));
    assert forall|s: int| 0 <= s < from.len() implies 0 <= i < (#[trigger] from[s]).num_parameters
        && from[s].num_parameters <= from[s].params_memory.len() by {
        assert(updated(from[s], after[s], rates, (s + 1) as usize));
        assert(0 <= i < before[s].num_parameters);
    }
    assert forall|s: int| 0 < s < from.len() implies (#[trigger] from[s]).m_memory == after[s
        - 1].m_memory && from[s].v_memory == after[s - 1].v_memory by {
        assert(updated(from[s], after[s], rates, (s + 1) as usize));
        assert(before[s].m_memory == after[s - 1].m_memory);
    }
    assert(steps_taken(from, after, rates, i));
    assert(trained_by(before[0], after[0], inputs[0], targets[0], b, t, 0int as usize, stages[0]));
    lemma_training_rates(r, rates);
    assert forall|s: int| 0 <= s < from.len() implies (r.val)(
        (#[trigger] from[s]).grads_memory[i],
    ) == g by {
        assert(updated(from[s], after[s], rates, (s + 1) as usize));
        assert((r.val)(after[s].grads_memory[i]) == g);
    }
    lemma_steady_pace(r, from, after, rates, i, g, n);
    assert(updated(from[n - 1], after[n - 1], rates, (n - 1 + 1) as usize));
    let (lr, eps, wd) = (
        (r.val)(rates.learning_rate),
        (r.val)(rates.eps),
        (r.val)(rates.weight_decay),
    );
    lemma_quotient(1real, 100000000real, eps);
    let x = (r.val)(before[n - 1].params_memory[i]);
    let z = g / (magnitude(g) + eps);
    lemma_quotient(z, 10000real, lr * z);
    assert((lr * z) * 10000real == z) by (nonlinear_arith)
        requires
            lr * 10000real == 1real,
    ;
    assert(lr * (z + wd * x) == lr * z) by (nonlinear_arith)
        requires
            wd == 0real,
    ;
}

/// A training step computes its batch and the gradients of its batch alone: the activations, the
/// losses and their mean are those of the batch under the parameters before the step, and the
/// gradients are those that come of zeros. What gradients there were before makes no difference.
pub proof fn lemma_training_by_numbers<T: Scalar>(
    r: Reading<T>,
    before: Model<T>,
    after: Model<T>,
    inputs: Seq<i32>,
    targets: Seq<i32>,
    b: usize,
    t: usize,
    step: usize,
    stages: Stages<T>,
)
    requires
        all_exact(r),
        trainable(before),
        can_forward(before, inputs, Some(targets), b, t),
        trained_by(before, after, inputs, targets, b, t, step, stages),
        0 < b,
        0 < t,
        (r.val)(after.mean_loss) != -1real,
    ensures
        batch_by_numbers(
            r,
            before.params,
            after.acts,
            inputs,
            before.config.num_layers as int,
            b * t,
            (b * before.config.num_heads) * (t * t),
            b as int,
            t as int,
            before.config.channels as int,
            before.config.num_heads as int,
            before.config.vocab_size as int,
        ),
        loses(
            r,
            after.acts.losses,
            after.acts.probs,
            targets,
            b * t,
            before.config.vocab_size as int,
        ),
        (r.val)(after.mean_loss) * ((b * t) as real) == rsum(
            |i: int| (r.val)(after.acts.losses[i]),
            b * t,
        ),
        after.mean_loss == stages.computed.mean_loss,
        exists|d0: Acts<T>, g0: Params<T>|
            no_acts(r, d0) && no_params(r, g0) && #[trigger] batch_back_by_numbers(
                r,
                before.params,
                after.acts,
                inputs,
                targets,
                d0,
                after.grads_acts,
                g0,
                after.grads,
                before.config.num_layers as int,
                b as int,
                t as int,
                before.config.channels as int,
                before.config.num_heads as int,
                before.config.vocab_size as int,
            ),
{
    let computed = stages.computed;
    let cleared = stages.cleared;
    let carried = stages.carried;
    let room = choose|ready: Model<T>| #[trigger]
        room_made(before, ready, b, t) && batch_computed(
            ready,
            computed,
            inputs,
            Some(targets),
            b,
            t,
        );
    lemma_forward_by_numbers(r, before, room, computed, inputs, Some(targets), b, t);
    lemma_forward_keeps(before, room, computed, inputs, Some(targets), b, t);
    lemma_zero_grad_keeps(computed, cleared);
    lemma_cleared_to_nothing(r, computed, cleared);
    let ready = lemma_not_refused(r, cleared, carried);
    lemma_room_of_nothing(r, cleared, ready);
    assert(0 < b * t) by (nonlinear_arith)
        requires
            0 < b,
            0 < t,
    ;
    lemma_backward_by_numbers(r, cleared, ready, carried);
    assert(cleared.batch_size == b && cleared.seq_len == t && cleared.acts == after.acts);
    assert(carried.grads_acts == after.grads_acts && carried.grads == after.grads);
    assert(batch_back_by_numbers(
        r,
        before.params,
        after.acts,
        inputs,
        targets,
        ready.grads_acts,
        after.grads_acts,
        cleared.grads,
        after.grads,
        before.config.num_layers as int,
        b as int,
        t as int,
        before.config.channels as int,
        before.config.num_heads as int,
        before.config.vocab_size as int,
    ));
}

/// With a loss other than minus one the gradients are computed.
proof fn lemma_not_refused<T: Scalar>(r: Reading<T>, cleared: Model<T>, carried: Model<T>) -> (ready:
    Model<T>)
    requires
        exact(r),
        backwarded(cleared, carried),
        (r.val)(carried.mean_loss) != -1real,
    ensures
        gradient_room_made(cleared, ready),
        model_carried_back(ready, carried),
{
    if lacks_loss(cleared.mean_loss, true) && carried == cleared {
        let refused = Err::<(), ModelError>(ModelError::NoTargets);
        lemma_backward_refused(r, cleared, carried, refused);
    }
    choose|ready: Model<T>| #[trigger]
        gradient_room_made(cleared, ready) && model_carried_back(ready, carried)
}

/// A training step leaves memory and tensors in agreement: the parameters and their gradients lie
/// in their memory, tensor behind tensor.
pub proof fn lemma_trained_layout<T: Scalar>(
    before: Model<T>,
    after: Model<T>,
    inputs: Seq<i32>,
    targets: Seq<i32>,
    b: usize,
    t: usize,
    step: usize,
    stages: Stages<T>,
)
    requires
        trained_by(before, after, inputs, targets, b, t, step, stages),
        ints(before.param_sizes) == param_sizes(before.config),
        parameter_count(before.config) <= before.params_memory.len(),
        parameter_count(before.config) <= after.grads_memory.len(),
        params_sized(after.grads, param_sizes(before.config)),
    ensures
        laid_out(
            after.params_memory,
            after.params,
            after.config.max_seq_len as int,
            after.config.vocab_size as int,
            after.config.num_layers as int,
            after.config.channels as int,
        ),
        laid_out(
            after.grads_memory,
            after.grads,
            after.config.max_seq_len as int,
            after.config.vocab_size as int,
            after.config.num_layers as int,
            after.config.channels as int,
        ),
{
    lemma_step_keeps(before, after, inputs, targets, b, t, step, stages);
    lemma_unpacked_layout(after.params_memory, after.config);
    lemma_packed_layout(stages.carried.grads_memory, after.grads, after.config);
}

/// Room that has been fixed holds every batch with no more sequences and no longer ones, and no
/// other. Room that has not been fixed holds every batch.
pub proof fn lemma_room_has_two_sides<T>(model: Model<T>, b: usize, t: usize)
    ensures
        model.acts_memory.len() == 0 ==> !too_large(model, b, t),
        b <= model.batch_size && t <= model.seq_len ==> !too_large(model, b, t),
        model.acts_memory.len() > 0 && b > model.batch_size ==> too_large(model, b, t),
        model.acts_memory.len() > 0 && t > model.seq_len ==> too_large(model, b, t),
{
}

} // verus!
