//! How chance and the probabilities of the model choose the tokens of a text, where scalars are
//! real numbers.

use vstd::prelude::*;

use crate::buffer::row;
use crate::forward::{batch_computed, room_made};
use crate::generation::{chosen, continued, drawn, generated_by, later_state, signed};
use crate::model::Model;
use crate::reals::{
    exact, lemma_quotient, lemma_tens, lemma_worth, rsum, sound, worth, Reading,
};
use crate::sampling::{lemma_random_below_one, random_number, sampled_by, scrambled};
use crate::scalar::{evals, lit, nought, Scalar};
use crate::training::lemma_forward_shapes;

verus! {

/// What the first `n` of some probabilities add up to.
pub open spec fn weight<T>(r: Reading<T>, probabilities: Seq<T>, n: int) -> real {
    rsum(|i: int| (r.val)(probabilities[i]), n)
}

/// Every running sum is what the probabilities up to it add up to.
proof fn lemma_running_sums<T: Scalar>(
    r: Reading<T>,
    probabilities: Seq<T>,
    coin: T,
    k: int,
    sums: Seq<T>,
    j: int,
)
    requires
        exact(r),
        sampled_by(probabilities, coin, k, sums),
        0 <= j < sums.len(),
    ensures
        (r.val)(sums[j]) == weight(r, probabilities, j + 1),
    decreases j,
{
    reveal_with_fuel(worth, 3);
    reveal_with_fuel(sound, 3);
    let start = if j == 0 {
        nought()
    } else {
        lit(sums[j - 1])
    };
    assert(evals(start.plus(lit(probabilities[j])), sums[j]));
    lemma_worth(r, start.plus(lit(probabilities[j])), sums[j]);
    if j > 0 {
        lemma_running_sums(r, probabilities, coin, k, sums, j - 1);
    } else {
        assert(weight(r, probabilities, 0) == 0real);
    }
}

/// A place is chosen where the coin falls: the probabilities before it add up to no more than the
/// coin, and with its own to more. Where all of them do not add up to more, the last place is
/// chosen.
pub proof fn lemma_chosen_by_weight<T: Scalar>(
    r: Reading<T>,
    probabilities: Seq<T>,
    coin: T,
    k: int,
    sums: Seq<T>,
)
    requires
        exact(r),
        sampled_by(probabilities, coin, k, sums),
    ensures
        0 <= k < probabilities.len(),
        forall|j: int|
            0 < j <= k ==> #[trigger] weight(r, probabilities, j) <= (r.val)(coin),
        (r.val)(coin) < weight(r, probabilities, k + 1) || (k == probabilities.len() - 1 && weight(
            r,
            probabilities,
            k + 1,
        ) <= (r.val)(coin)),
{
    reveal(exact);
    assert forall|j: int| 0 < j <= k implies #[trigger] weight(r, probabilities, j) <= (r.val)(
        coin,
    ) by {
        lemma_running_sums(r, probabilities, coin, k, sums, j - 1);
        assert(call_ensures(T::lt, (coin, sums[j - 1]), false));
    }
    lemma_running_sums(r, probabilities, coin, k, sums, k);
}

/// A random number is a count below two to the power 24, over that number.
proof fn lemma_coin<T: Scalar>(r: Reading<T>, state: u64, coin: T)
    requires
        exact(r),
        drawn(state, coin),
    ensures
        (r.val)(coin) == (scrambled(state) >> 8u32) as real / 16777216real,
        0real <= (r.val)(coin) < 1real,
{
    let count = scrambled(state) >> 8u32;
    lemma_random_below_one(state);
    lemma_tens();
    reveal_with_fuel(worth, 3);
    reveal_with_fuel(sound, 3);
    lemma_worth(r, random_number(state), coin);
    lemma_quotient(count as real, 16777216real, 0real);
}

/// The tokens before token `n` have been computed in one sequence.
proof fn lemma_computed_on_all<T: Scalar>(
    state: u64,
    tokens: Seq<u32>,
    models: Seq<Model<T>>,
    n: int,
)
    requires
        generated_by(state, tokens, models),
        models[0].acts_memory.len() == 0,
        0 < n < tokens.len() <= usize::MAX,
    ensures
        models[n].inputs == signed(tokens.take(n)),
        models[n].batch_size == 1,
        models[n].seq_len == n,
        models[n].acts.probs.len() == n * models[n].config.vocab_size,
{
    lemma_room_stays_open(state, tokens, models, n - 1);
    let (before, after) = (models[n - 1], models[n]);
    assert(continued(before, after, state, tokens, n));
    let inputs = signed(tokens.take(n));
    let ready = choose|ready: Model<T>| #[trigger]
        room_made(before, ready, 1, n as usize) && batch_computed(
            ready,
            after,
            inputs,
            None,
            1,
            n as usize,
        );
    lemma_forward_shapes(before, ready, after, inputs, None, 1, n as usize);
    assert((1 * n) * after.config.vocab_size == n * after.config.vocab_size);
}

/// The model keeps no fixed room while a text is generated.
proof fn lemma_room_stays_open<T: Scalar>(
    state: u64,
    tokens: Seq<u32>,
    models: Seq<Model<T>>,
    n: int,
)
    requires
        generated_by(state, tokens, models),
        models[0].acts_memory.len() == 0,
        0 <= n < tokens.len(),
    ensures
        models[n].acts_memory.len() == 0,
        models[n].config == models[0].config,
    decreases n,
{
    if n > 0 {
        lemma_room_stays_open(state, tokens, models, n - 1);
        assert(continued(models[n - 1], models[n], state, tokens, n));
    }
}

/// What the last `vocab_size` probabilities of a model are, those that follow its last token.
pub open spec fn last_probabilities<T>(model: Model<T>) -> Seq<T> {
    model.acts.probs.skip(model.acts.probs.len() - model.config.vocab_size)
}

/// Token `n` of a text is chosen by the probabilities that follow all tokens before it: the model
/// has been computed on these tokens, in one sequence, and the random number falls into the share
/// of the token among the last probabilities. The random number is a count below two to the power
/// 24, over that number.
pub proof fn lemma_generated_by_weight<T: Scalar>(
    r: Reading<T>,
    state: u64,
    tokens: Seq<u32>,
    models: Seq<Model<T>>,
    n: int,
)
    requires
        exact(r),
        generated_by(state, tokens, models),
        models[0].acts_memory.len() == 0,
        0 < n < tokens.len() <= usize::MAX,
    ensures
        models[n].inputs.len() == n,
        forall|i: int| 0 <= i < n ==> #[trigger] models[n].inputs[i] == tokens[i] as i32,
        models[n].batch_size == 1,
        models[n].seq_len == n,
        models[n].acts.probs.len() == n * models[n].config.vocab_size,
        0 <= tokens[n] < models[n].config.vocab_size,
        ({
            let p = last_probabilities(models[n]);
            let x = (scrambled(later_state(state, n)) >> 8u32) as real / 16777216real;
            let k = tokens[n] as int;
            &&& p.len() == models[n].config.vocab_size
            &&& 0real <= x < 1real
            &&& forall|j: int| 0 < j <= k ==> #[trigger] weight(r, p, j) <= x
            &&& x < weight(r, p, k + 1) || (k == p.len() - 1 && weight(r, p, k + 1) <= x)
        }),
{
    lemma_computed_on_all(state, tokens, models, n);
    let after = models[n];
    assert(continued(models[n - 1], after, state, tokens, n));
    let v = after.config.vocab_size as int;
    let coin = choose|coin: T| #[trigger]
        drawn(later_state(state, n), coin) && chosen(after, n, coin, tokens[n]);
    let p = last_probabilities(after);
    let last = row(after.acts.probs, n - 1, v);
    assert((n - 1) * v == n * v - v) by (nonlinear_arith);
    assert(0 <= (n - 1) * v) by (nonlinear_arith)
        requires
            0 < n,
            0 <= v,
    ;
    assert(last =~= p);
    let sums = choose|sums: Seq<T>| #[trigger]
        sampled_by(last, coin, tokens[n] as int, sums);
    lemma_chosen_by_weight(r, p, coin, tokens[n] as int, sums);
    lemma_coin(r, later_state(state, n), coin);
}

/// A token that is certain is the one that comes next: where the probabilities that follow the
/// tokens so far are one for a token and zero for all others, that token is generated.
pub proof fn lemma_certain_token_follows<T: Scalar>(
    r: Reading<T>,
    state: u64,
    tokens: Seq<u32>,
    models: Seq<Model<T>>,
    n: int,
    token: int,
)
    requires
        exact(r),
        generated_by(state, tokens, models),
        models[0].acts_memory.len() == 0,
        0 < n < tokens.len() <= usize::MAX,
        0 <= token < models[n].config.vocab_size,
        models[n].config.vocab_size <= models[n].acts.probs.len(),
        forall|i: int|
            0 <= i < models[n].config.vocab_size ==> (r.val)(
                #[trigger] last_probabilities(models[n])[i],
            ) == (if i == token {
                1real
            } else {
                0real
            }),
    ensures
        tokens[n] == token,
{
    lemma_generated_by_weight(r, state, tokens, models, n);
    let p = last_probabilities(models[n]);
    let k = tokens[n] as int;
    lemma_certain_weight(r, p, token, k + 1);
    lemma_certain_weight(r, p, token, k);
    if k > 0 {
        assert(weight(r, p, k) <= (scrambled(later_state(state, n)) >> 8u32) as real / 16777216real);
    }
}

proof fn lemma_certain_weight<T>(r: Reading<T>, p: Seq<T>, token: int, n: int)
    requires
        0 <= token,
        0 <= n <= p.len(),
        forall|i: int|
            0 <= i < p.len() ==> (r.val)(#[trigger] p[i]) == (if i == token {
                1real
            } else {
                0real
            }),
    ensures
        weight(r, p, n) == (if token < n {
            1real
        } else {
            0real
        }),
    decreases n,
{
    if n > 0 {
        lemma_certain_weight(r, p, token, n - 1);
        assert((r.val)(p[n - 1]) == (if n - 1 == token {
            1real
        } else {
            0real
        }));
    }
}

} // verus!
