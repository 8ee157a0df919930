//! Residual connections.

use vstd::prelude::*;

use crate::buffer::splice;
use crate::scalar::{evals, lit, Scalar, Traced};

verus! {

/// `after` is `before` with its first `n` elements replaced by the sums of those of `inp1` and
/// `inp2`.
pub open spec fn residual_sum<T: Scalar>(
    before: Seq<T>,
    after: Seq<T>,
    inp1: Seq<T>,
    inp2: Seq<T>,
    n: int,
) -> bool {
    &&& after.len() == before.len()
    &&& forall|i: int|
        0 <= i < after.len() ==> if i < n {
            evals(lit(inp1[i]).plus(lit(inp2[i])), #[trigger] after[i])
        } else {
            after[i] == before[i]
        }
}

/// Adds the first `n` elements of the two inputs into `out`.
pub fn residual_forward<T: Scalar>(out: &mut [T], inp1: &[T], inp2: &[T], n: usize)
    requires
        n <= old(out)@.len(),
        n <= inp1@.len(),
        n <= inp2@.len(),
    ensures
        residual_sum(old(out)@, final(out)@, inp1@, inp2@, n as int),
{
    let ghost before = out@;
    for i in 0..n
        invariant
            n <= before.len(),
            n <= inp1@.len(),
            n <= inp2@.len(),
            residual_sum(before, out@, inp1@, inp2@, i as int),
    {
        let sum = Traced::quote(inp1[i]).plus(&Traced::quote(inp2[i]));
        out[i] = sum.v;
    }
}

/// Hands the first `n` elements of the gradient of a sum on to both of its terms.
pub fn residual_backward<T: Scalar>(dinp1: &mut [T], dinp2: &mut [T], dout: &[T], n: usize)
    requires
        n <= old(dinp1)@.len(),
        n <= old(dinp2)@.len(),
        n <= dout@.len(),
    ensures
        final(dinp1)@ == splice(old(dinp1)@, 0, dout@.take(n as int)),
        final(dinp2)@ == splice(old(dinp2)@, 0, dout@.take(n as int)),
{
    let ghost before1 = dinp1@;
    let ghost before2 = dinp2@;
    for i in 0..n
        invariant
            n <= before1.len(),
            n <= before2.len(),
            n <= dout@.len(),
            dinp1@ == splice(before1, 0, dout@.take(i as int)),
            dinp2@ == splice(before2, 0, dout@.take(i as int)),
    {
        dinp1[i] = dout[i];
        dinp2[i] = dout[i];
    }
}

} // verus!
