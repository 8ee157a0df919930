//! The generation of text.

use vstd::prelude::*;

use crate::buffer::{lemma_row_bound, row, row_of};
use crate::forward::{
    batch_activations, batch_computed, batch_countable, computable, room_made,
};
use crate::model::{Model, GPT2};
use crate::sampling::{next_state, random_f32, random_number, sample_mult, sampled_by};
use crate::scalar::{evals, Scalar};
use crate::training::{forwarded, lemma_forward_shapes};

verus! {

/// The token that ends a text, and that generation starts from.
pub const GPT2_EOT: u32 = 50256;

/// The number of tokens that are generated.
pub const GEN_MAX_LENGTH: usize = 64;

/// Tokens as the model takes them.
pub open spec fn signed(tokens: Seq<u32>) -> Seq<i32> {
    Seq::new(tokens.len(), |i: int| tokens[i] as i32)
}

/// The state of the random numbers after `n` more of them.
pub open spec fn later_state(state: u64, n: int) -> u64
    decreases n,
{
    if n <= 0 {
        state
    } else {
        next_state(later_state(state, n - 1))
    }
}

/// `coin` may be the random number that is drawn on coming to `state`.
pub open spec fn drawn<T: Scalar>(state: u64, coin: T) -> bool {
    evals(random_number(state), coin)
}

/// `token` has been chosen by `coin` among the probabilities that `model` gives for what follows
/// `n` tokens.
pub open spec fn chosen<T: Scalar>(model: Model<T>, n: int, coin: T, token: u32) -> bool {
    exists|sums: Seq<T>| #[trigger]
        sampled_by(
            row(model.acts.probs, n - 1, model.config.vocab_size as int),
            coin,
            token as int,
            sums,
        )
}

/// Token `n` has been chosen by chance after the tokens before it had been computed.
pub open spec fn continued<T: Scalar>(
    before: Model<T>,
    after: Model<T>,
    state: u64,
    tokens: Seq<u32>,
    n: int,
) -> bool {
    &&& forwarded(before, after, signed(tokens.take(n)), None, 1, n as usize)
    &&& exists|coin: T| #[trigger] drawn(later_state(state, n), coin) && chosen(
        after,
        n,
        coin,
        tokens[n],
    )
}

/// The tokens have been generated, the model going through the given states.
pub open spec fn generated_by<T: Scalar>(
    state: u64,
    tokens: Seq<u32>,
    models: Seq<Model<T>>,
) -> bool {
    &&& tokens[0] == 50256
    &&& models.len() == tokens.len()
    &&& forall|n: int|
        0 < n < tokens.len() ==> continued(
            models[n - 1],
            #[trigger] models[n],
            state,
            tokens,
            n,
        )
}

/// The sizes of the activations for one sequence of `n` tokens, and their number, can be counted.
#[verifier::opaque]
pub open spec fn room_for<T>(model: Model<T>, n: usize) -> bool {
    batch_countable(model, 1, n) && batch_activations(model, 1, n) <= usize::MAX
}

/// The model can be computed, has embeddings for the token that generation starts from and for
/// positions enough, and there can be room for every length on the way.
pub open spec fn can_generate<T>(model: Model<T>) -> bool {
    &&& computable(model)
    &&& 0 < model.config.vocab_size
    &&& model.params_memory.len() > 0
    &&& model.acts_memory.len() == 0
    &&& 50256 * model.config.channels + model.config.channels <= model.params.wte.len()
    &&& 63 * model.config.channels <= model.params.wpe.len()
    &&& forall|n: usize| 1 <= n < 64 ==> #[trigger] room_for(model, n)
}

/// A token more leaves what was generated before as it is.
proof fn lemma_generated_step<T: Scalar>(
    state: u64,
    tokens: Seq<u32>,
    models: Seq<Model<T>>,
    token: u32,
    model: Model<T>,
)
    requires
        tokens.len() > 0,
        generated_by(state, tokens, models),
        continued(
            models[models.len() - 1],
            model,
            state,
            tokens.push(token),
            tokens.len() as int,
        ),
    ensures
        generated_by(state, tokens.push(token), models.push(model)),
{
    let more = tokens.push(token);
    let others = models.push(model);
    assert forall|n: int| 0 < n < more.len() implies continued(
        others[n - 1],
        #[trigger] others[n],
        state,
        more,
        n,
    ) by {
        if n < tokens.len() {
            assert(continued(models[n - 1], models[n], state, tokens, n));
            assert(more.take(n) =~= tokens.take(n));
        }
    }
}

/// Generates tokens, each chosen by the probabilities that the model gives after those before it.
pub fn generate<T: Scalar>(model: &mut GPT2<T>, rng_state: &mut u64) -> (tokens: Vec<u32>)
    requires
        can_generate(old(model)@),
    ensures
        tokens@.len() == 64,
        forall|i: int| 0 < i < 64 ==> #[trigger] tokens@[i] < old(model)@.config.vocab_size,
        *final(rng_state) == later_state(*old(rng_state), 63),
        can_generate(final(model)@),
        exists|models: Seq<Model<T>>| #[trigger]
            generated_by(*old(rng_state), tokens@, models) && models[0] == old(model)@
                && models[63] == final(model)@,
{
    let ghost state = *rng_state;
    let ghost before = model@;
    let ghost mut models: Seq<Model<T>> = seq![model@];
    let v = model.config.vocab_size;
    let mut tokens: Vec<u32> = Vec::new();
    tokens.push(GPT2_EOT);
    for n in 1..GEN_MAX_LENGTH
        invariant
            tokens@.len() == n,
            models.len() == n,
            models[0] == before,
            models[n - 1] == model@,
            v == before.config.vocab_size,
            model@.config == before.config,
            can_generate(model@),
            forall|i: int| 0 < i < n ==> #[trigger] tokens@[i] < v,
            *rng_state == later_state(state, n - 1),
            generated_by(state, tokens@, models),
    {
        let ghost prior = model@;
        let mut inputs: Vec<i32> = Vec::new();
        for i in 0..n
            invariant
                tokens@.len() == n,
                v <= i32::MAX,
                inputs@ == signed(tokens@.take(i as int)),
                tokens@[0] == 50256,
                forall|j: int| 0 < j < n ==> #[trigger] tokens@[j] < v,
        {
            inputs.push(tokens[i] as i32);
            assert(inputs@ =~= signed(tokens@.take(i + 1)));
        }
        assert(tokens@.take(n as int) =~= tokens@);
        proof {
            assert(room_for(prior, n));
            reveal(room_for);
            let c = prior.config.channels as int;
            assert forall|i: int| 0 <= i < n implies 0 <= #[trigger] inputs@[i] && inputs@[i] * c + c
                <= prior.params.wte.len() by {
                if i > 0 {
                    lemma_row_bound(tokens@[i] as int, c, c, v as int);
                }
            }
            assert(n * c <= 63 * c) by (nonlinear_arith)
                requires
                    n <= 63,
                    0 <= c,
            ;
        }
        let _ = model.forward(&inputs, None, 1, n);
        proof {
            let ready = choose|ready: Model<T>| #[trigger]
                room_made(prior, ready, 1, n) && batch_computed(
                    ready,
                    model@,
                    inputs@,
                    None,
                    1,
                    n,
                );
            lemma_forward_shapes(prior, ready, model@, inputs@, None, 1, n);
            assert forall|k: usize| 1 <= k < 64 implies #[trigger] room_for(model@, k) by {
                assert(room_for(prior, k));
            }
            assert(model@.acts.probs.len() == n * v);
        }
        let coin = random_f32::<T>(rng_state);
        let next = sample_mult(row_of(&model.acts.probs, n - 1, v), coin);
        let ghost short = tokens@;
        tokens.push(next as u32);
        proof {
            assert(tokens@.take(n as int) =~= short);
            assert(drawn(later_state(state, n as int), coin));
            assert(chosen(model@, n as int, coin, next as u32));
            assert(forwarded(prior, model@, inputs@, None, 1, n));
            lemma_generated_step(state, short, models, next as u32, model@);
            models = models.push(model@);
        }
    }
    tokens
}

} // verus!
