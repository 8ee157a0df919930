//! Random numbers, and the choice of a token by its probability.

use vstd::arithmetic::div_mod::lemma_mod_mod;
use vstd::prelude::*;

use crate::scalar::{evals, lit, nought, unit, Expr, Scalar, Traced};

verus! {

/// The state of the generator that follows `state`.
pub open spec fn next_state(state: u64) -> u64 {
    let a = state ^ (state >> 12u64);
    let b = a ^ (a << 25u64);
    b ^ (b >> 27u64)
}

/// What the generator gives out in a state.
pub open spec fn scrambled(state: u64) -> u32 {
    ((state * 0x2545_F491_4F6C_DD1D) % 0x1_0000_0000) as u32
}

/// The low half of a product that wraps around is that of the product.
proof fn lemma_low_half(product: int, wrapped: u64)
    requires
        wrapped == product % 0x1_0000_0000_0000_0000,
    ensures
        wrapped as u32 == product % 0x1_0000_0000,
{
    lemma_mod_mod(product, 0x1_0000_0000, 0x1_0000_0000);
    assert(wrapped as u32 == wrapped % 0x1_0000_0000) by (bit_vector);
}

/// The next random whole number.
pub fn random_u32(state: &mut u64) -> (r: u32)
    ensures
        *final(state) == next_state(*old(state)),
        r == scrambled(*final(state)),
{
    *state = *state ^ (*state >> 12u64);
    *state = *state ^ (*state << 25u64);
    *state = *state ^ (*state >> 27u64);
    let product: u64 = (*state).wrapping_mul(0x2545_F491_4F6C_DD1D);
    proof {
        lemma_low_half(*state * 0x2545_F491_4F6C_DD1D, product);
    }
    product as u32
}

/// A count over a whole number.
pub open spec fn fraction<T: Scalar>(count: usize, whole: u64) -> Expr<T> {
    Expr::Count(count).over(Expr::Decimal(whole, 0))
}

/// The random number that the generator gives out in a state.
pub open spec fn random_number<T: Scalar>(state: u64) -> Expr<T> {
    fraction((scrambled(state) >> 8u32) as usize, 16_777_216)
}

/// The next random number from zero up to, but not including, one.
pub fn random_f32<T: Scalar>(state: &mut u64) -> (r: T)
    ensures
        *final(state) == next_state(*old(state)),
        evals(random_number(*final(state)), r),
{
    let bits = random_u32(state) >> 8u32;
    Traced::count(bits as usize).over(&Traced::decimal(16_777_216, 0)).v
}

/// A generator that does not start from zero never comes to zero.
pub proof fn lemma_state_stays_nonzero(state: u64)
    ensures
        next_state(state) == 0 <==> state == 0,
{
    assert(next_state(state) == 0 <==> state == 0) by (bit_vector);
}

/// Two different states are never followed by the same state.
pub proof fn lemma_states_stay_apart(x: u64, y: u64)
    ensures
        next_state(x) == next_state(y) <==> x == y,
{
    assert(next_state(x) == next_state(y) <==> x == y) by (bit_vector);
}

/// The count that a random number is made of lies below what it is divided by.
pub proof fn lemma_random_below_one(state: u64)
    ensures
        scrambled(state) >> 8u32 < 16_777_216,
{
    let x = scrambled(state);
    assert(x >> 8u32 < 16_777_216) by (bit_vector);
}

/// The scalar type knows a proper fraction, of counts that single precision can tell apart: it
/// compares less than one, and not less than zero.
pub open spec fn knows_proper_fractions<T: Scalar>() -> bool {
    forall|count: usize, whole: u64, x: T, zero: T, one: T|
        #![trigger evals(fraction(count, whole), x), evals(nought(), zero), evals(unit(), one)]
        count < whole <= 16_777_216 && evals(fraction(count, whole), x) && evals(nought(), zero)
            && evals(unit(), one) ==> !call_ensures(T::lt, (x, one), false) && !call_ensures(
            T::lt,
            (x, zero),
            true,
        )
}

/// A random number lies from zero up to, but not including, one: where the scalar type knows a
/// proper fraction, it compares less than one, and not less than zero.
pub proof fn lemma_random_in_range<T: Scalar>(state: u64, r: T, zero: T, one: T)
    requires
        knows_proper_fractions::<T>(),
        evals(random_number(state), r),
        evals(nought(), zero),
        evals(unit(), one),
    ensures
        !call_ensures(T::lt, (r, one), false),
        !call_ensures(T::lt, (r, zero), true),
{
    lemma_random_below_one(state);
}

/// `sums` are the sums of the first probabilities, of the first one alone, of the first two, and
/// so on.
pub open spec fn running_sums<T: Scalar>(probabilities: Seq<T>, sums: Seq<T>) -> bool {
    forall|i: int|
        0 <= i < sums.len() ==> evals(
            (if i == 0 {
                nought()
            } else {
                lit(sums[i - 1])
            }).plus(lit(probabilities[i])),
            #[trigger] sums[i],
        )
}

/// With the given running sums, `r` is the first place whose sum exceeds `coin`, or the last place
/// where no sum does.
pub open spec fn sampled_by<T: Scalar>(
    probabilities: Seq<T>,
    coin: T,
    r: int,
    sums: Seq<T>,
) -> bool {
    &&& 0 <= r < probabilities.len()
    &&& running_sums(probabilities, sums)
    &&& forall|i: int|
        0 <= i < sums.len() - 1 ==> call_ensures(T::lt, (coin, #[trigger] sums[i]), false)
    &&& {
        ||| sums.len() == r + 1 && call_ensures(T::lt, (coin, sums[r]), true)
        ||| {
            &&& r == probabilities.len() - 1
            &&& sums.len() == probabilities.len()
            &&& call_ensures(T::lt, (coin, sums[r]), false)
        }
    }
}

/// Chooses a place by its probability.
pub fn sample_mult<T: Scalar>(probabilities: &[T], coin: T) -> (r: usize)
    requires
        probabilities.len() > 0,
    ensures
        r < probabilities.len(),
        exists|sums: Seq<T>| #[trigger] sampled_by(probabilities@, coin, r as int, sums),
{
    let mut cdf = Traced::zero();
    let ghost mut sums: Seq<T> = Seq::empty();
    for i in 0..probabilities.len()
        invariant
            cdf.ok(),
            cdf.e@ == (if i == 0 {
                nought()
            } else {
                lit(sums[i - 1])
            }),
            sums.len() == i,
            running_sums(probabilities@, sums),
            forall|j: int| 0 <= j < i ==> call_ensures(T::lt, (coin, #[trigger] sums[j]), false),
    {
        let sum = cdf.plus(&Traced::quote(probabilities[i]));
        let ghost prior = sums;
        proof {
            sums = sums.push(sum.v);
            assert forall|j: int| 0 <= j < sums.len() implies evals(
                (if j == 0 {
                    nought()
                } else {
                    lit(sums[j - 1])
                }).plus(lit(probabilities@[j])),
                #[trigger] sums[j],
            ) by {
                if j < i {
                    assert(sums[j] == prior[j]);
                }
            }
        }
        if coin.lt(sum.v) {
            assert(sampled_by(probabilities@, coin, i as int, sums));
            return i;
        }
        cdf = Traced::quote(sum.v);
    }
    assert(sampled_by(probabilities@, coin, probabilities@.len() - 1, sums));
    probabilities.len() - 1
}

} // verus!
