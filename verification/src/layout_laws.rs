//! Where the parameters lie in memory and in a checkpoint, position by position.

use vstd::prelude::*;

use crate::buffer::{splice, window};
use crate::checkpoint::{
    checkpoint_loaded, header_config, header_number, lemma_param_sizes, parameter_bytes,
    parameter_read, parameters_read,
};
use crate::forward::room_made;
use crate::model::{no_loss, Model};
use crate::reals::{exact, lemma_worth, sound, worth, Reading};
use crate::scalar::Scalar;
use crate::tensors::{
    ints, lemma_unpack_packed, offset, packed, param_sizes, parameter_count, params_sized, unpacked,
    GPT2Config, Params,
};
use crate::training::{updated, Rates};

verus! {

/// The `n` elements of the tensor are those of `memory` from position `at` on.
pub open spec fn lies_at<T>(memory: Seq<T>, tensor: Seq<T>, at: int, n: int) -> bool {
    &&& tensor.len() == n
    &&& 0 <= at
    &&& at + n <= memory.len()
    &&& forall|j: int| 0 <= j < n ==> #[trigger] tensor[j] == memory[at + j]
}

/// The tensors lie in memory one behind the other: the embeddings of `v` tokens and `t` positions,
/// the weights and shifts of the first normalisation, of the queries, keys and values, of the
/// projection of the attention, of the second normalisation, of the two projections behind it, and
/// of the last normalisation. Those of the `l` layers lie layer behind layer, for `c` channels.
pub open spec fn laid_out<T>(
    memory: Seq<T>,
    p: Params<T>,
    t: int,
    v: int,
    l: int,
    c: int,
) -> bool {
    let a = v * c + t * c;
    let lc = l * c;
    let lcc = l * c * c;
    &&& lies_at(memory, p.wte, 0, v * c)
    &&& lies_at(memory, p.wpe, v * c, t * c)
    &&& lies_at(memory, p.ln1w, a, lc)
    &&& lies_at(memory, p.ln1b, a + lc, lc)
    &&& lies_at(memory, p.qkvw, a + 2 * lc, 3 * lcc)
    &&& lies_at(memory, p.qkvb, a + 2 * lc + 3 * lcc, 3 * lc)
    &&& lies_at(memory, p.attprojw, a + 5 * lc + 3 * lcc, lcc)
    &&& lies_at(memory, p.attprojb, a + 5 * lc + 4 * lcc, lc)
    &&& lies_at(memory, p.ln2w, a + 6 * lc + 4 * lcc, lc)
    &&& lies_at(memory, p.ln2b, a + 7 * lc + 4 * lcc, lc)
    &&& lies_at(memory, p.fcw, a + 8 * lc + 4 * lcc, 4 * lcc)
    &&& lies_at(memory, p.fcb, a + 8 * lc + 8 * lcc, 4 * lc)
    &&& lies_at(memory, p.fcprojw, a + 12 * lc + 8 * lcc, 4 * lcc)
    &&& lies_at(memory, p.fcprojb, a + 12 * lc + 12 * lcc, lc)
    &&& lies_at(memory, p.lnfw, a + 13 * lc + 12 * lcc, c)
    &&& lies_at(memory, p.lnfb, a + 13 * lc + 12 * lcc + c, c)
}

/// The sizes of the tensors, and where each of them begins.
proof fn lemma_positions(config: GPT2Config)
    ensures
        ({
            let sizes = param_sizes(config);
            let t = config.max_seq_len as int;
            let v = config.vocab_size as int;
            let l = config.num_layers as int;
            let c = config.channels as int;
            let a = v * c + t * c;
            let lc = l * c;
            let lcc = l * c * c;
            &&& 0 <= v * c && 0 <= t * c && 0 <= lc && 0 <= lcc
            &&& offset(sizes, 0) == 0 && sizes[0] == v * c
            &&& offset(sizes, 1) == v * c && sizes[1] == t * c
            &&& offset(sizes, 2) == a && sizes[2] == lc
            &&& offset(sizes, 3) == a + lc && sizes[3] == lc
            &&& offset(sizes, 4) == a + 2 * lc && sizes[4] == 3 * lcc
            &&& offset(sizes, 5) == a + 2 * lc + 3 * lcc && sizes[5] == 3 * lc
            &&& offset(sizes, 6) == a + 5 * lc + 3 * lcc && sizes[6] == lcc
            &&& offset(sizes, 7) == a + 5 * lc + 4 * lcc && sizes[7] == lc
            &&& offset(sizes, 8) == a + 6 * lc + 4 * lcc && sizes[8] == lc
            &&& offset(sizes, 9) == a + 7 * lc + 4 * lcc && sizes[9] == lc
            &&& offset(sizes, 10) == a + 8 * lc + 4 * lcc && sizes[10] == 4 * lcc
            &&& offset(sizes, 11) == a + 8 * lc + 8 * lcc && sizes[11] == 4 * lc
            &&& offset(sizes, 12) == a + 12 * lc + 8 * lcc && sizes[12] == 4 * lcc
            &&& offset(sizes, 13) == a + 12 * lc + 12 * lcc && sizes[13] == lc
            &&& offset(sizes, 14) == a + 13 * lc + 12 * lcc && sizes[14] == c
            &&& offset(sizes, 15) == a + 13 * lc + 12 * lcc + c && sizes[15] == c
            &&& offset(sizes, 16) == a + 13 * lc + 12 * lcc + 2 * c
        }),
{
    lemma_param_sizes(config);
    let sizes = param_sizes(config);
    let l = config.num_layers as int;
    let c = config.channels as int;
    assert(0 <= sizes[0] && 0 <= sizes[1] && 0 <= sizes[2] && 0 <= sizes[6]);
    assert(l * (3 * c) == 3 * (l * c) && l * (4 * c) == 4 * (l * c)) by (nonlinear_arith);
    assert(l * (c * c) == l * c * c) by (nonlinear_arith);
    assert(l * ((3 * c) * c) == 3 * (l * c * c)) by (nonlinear_arith);
    assert(l * ((4 * c) * c) == 4 * (l * c * c)) by (nonlinear_arith);
    assert(l * (c * (4 * c)) == 4 * (l * c * c)) by (nonlinear_arith);
    reveal_with_fuel(offset, 17);
}

/// Tensors that are taken out of memory are those that lie in it.
pub proof fn lemma_unpacked_layout<T>(memory: Seq<T>, config: GPT2Config)
    requires
        parameter_count(config) <= memory.len(),
    ensures
        laid_out(
            memory,
            unpacked(memory, param_sizes(config)),
            config.max_seq_len as int,
            config.vocab_size as int,
            config.num_layers as int,
            config.channels as int,
        ),
{
    lemma_positions(config);
}

/// Tensors that are put into memory lie in it.
pub proof fn lemma_packed_layout<T>(memory: Seq<T>, p: Params<T>, config: GPT2Config)
    requires
        params_sized(p, param_sizes(config)),
        parameter_count(config) <= memory.len(),
    ensures
        laid_out(
            splice(memory, 0, packed(p)),
            p,
            config.max_seq_len as int,
            config.vocab_size as int,
            config.num_layers as int,
            config.channels as int,
        ),
{
    let sizes = param_sizes(config);
    lemma_param_sizes(config);
    lemma_positions(config);
    let q = packed(p);
    lemma_unpack_packed(p, sizes);
    lemma_unpacked_layout(q, config);
    let whole = splice(memory, 0, q);
    assert forall|at: int, n: int, tensor: Seq<T>| #[trigger]
        lies_at(q, tensor, at, n) implies lies_at(whole, tensor, at, n) by {
        assert forall|j: int| 0 <= j < n implies #[trigger] tensor[j] == whole[at + j] by {
            assert(tensor[j] == q[at + j]);
        }
    }
}

/// After a step of the optimiser, the tensors are those that lie in the parameter memory.
pub proof fn lemma_updated_layout<T: Scalar>(
    before: Model<T>,
    after: Model<T>,
    rates: Rates<T>,
    t: usize,
)
    requires
        updated(before, after, rates, t),
        ints(before.param_sizes) == param_sizes(before.config),
        parameter_count(before.config) <= before.params_memory.len(),
    ensures
        laid_out(
            after.params_memory,
            after.params,
            after.config.max_seq_len as int,
            after.config.vocab_size as int,
            after.config.num_layers as int,
            after.config.channels as int,
        ),
{
    lemma_unpacked_layout(after.params_memory, after.config);
}

/// The number that the four bytes from position `at` on stand for, the lowest first.
pub open spec fn number_at(bytes: Seq<u8>, at: int) -> int {
    bytes[at] + 256 * bytes[at + 1] + 65536 * bytes[at + 2] + 16777216 * bytes[at + 3]
}

/// The elements of the tensor are those whose bits lie in `bytes` behind the header, from number
/// `at` on.
pub open spec fn stored_at<T: Scalar>(bytes: Seq<u8>, tensor: Seq<T>, at: int, n: int) -> bool {
    &&& tensor.len() == n
    &&& 0 <= at
    &&& 1024 + 4 * (at + n) <= bytes.len()
    &&& forall|j: int|
        0 <= j < n ==> call_ensures(
            T::from_bits,
            (number_at(bytes, 1024 + 4 * (at + j)) as u32,),
            #[trigger] tensor[j],
        )
}

/// A tensor that lies in memory that has been read from a checkpoint lies in the checkpoint.
proof fn lemma_stored<T: Scalar>(
    bytes: Seq<u8>,
    memory: Seq<T>,
    tensor: Seq<T>,
    at: int,
    n: int,
)
    requires
        parameters_read(bytes, memory, memory.len() as int, memory.len() as int),
        1024 + 4 * memory.len() <= bytes.len(),
        lies_at(memory, tensor, at, n),
    ensures
        stored_at(bytes, tensor, at, n),
{
    assert forall|j: int| 0 <= j < n implies call_ensures(
        T::from_bits,
        (number_at(bytes, 1024 + 4 * (at + j)) as u32,),
        #[trigger] tensor[j],
    ) by {
        let i = at + j;
        assert(tensor[j] == memory[i]);
        assert(parameter_read(bytes, i, memory[i]));
        let four = parameter_bytes(bytes, i);
        assert(four[0] == bytes[1024 + 4 * i]);
        assert(four[1] == bytes[1024 + 4 * i + 1]);
        assert(four[2] == bytes[1024 + 4 * i + 2]);
        assert(four[3] == bytes[1024 + 4 * i + 3]);
    }
}

/// A checkpoint that has been loaded is found in the model: the longest sequence, the number of
/// tokens, layers, heads and channels are the third to the seventh number of the header, and every
/// tensor is the numbers at its place behind the header.
pub proof fn lemma_checkpoint_layout<T: Scalar>(
    before: Model<T>,
    after: Model<T>,
    bytes: Seq<u8>,
)
    requires
        checkpoint_loaded(before, after, bytes),
        1024 + 4 * parameter_count(header_config(bytes)) <= bytes.len(),
        bytes[11] < 128,
        bytes[15] < 128,
        bytes[19] < 128,
        bytes[23] < 128,
        bytes[27] < 128,
    ensures
        after.config.max_seq_len == number_at(bytes, 8),
        after.config.vocab_size == number_at(bytes, 12),
        after.config.num_layers == number_at(bytes, 16),
        after.config.num_heads == number_at(bytes, 20),
        after.config.channels == number_at(bytes, 24),
        ({
            let t = after.config.max_seq_len as int;
            let v = after.config.vocab_size as int;
            let l = after.config.num_layers as int;
            let c = after.config.channels as int;
            let a = v * c + t * c;
            let lc = l * c;
            let lcc = l * c * c;
            let p = after.params;
            &&& after.num_parameters == a + 13 * lc + 12 * lcc + 2 * c
            &&& stored_at(bytes, after.params_memory, 0, after.num_parameters as int)
            &&& stored_at(bytes, p.wte, 0, v * c)
            &&& stored_at(bytes, p.wpe, v * c, t * c)
            &&& stored_at(bytes, p.ln1w, a, lc)
            &&& stored_at(bytes, p.ln1b, a + lc, lc)
            &&& stored_at(bytes, p.qkvw, a + 2 * lc, 3 * lcc)
            &&& stored_at(bytes, p.qkvb, a + 2 * lc + 3 * lcc, 3 * lc)
            &&& stored_at(bytes, p.attprojw, a + 5 * lc + 3 * lcc, lcc)
            &&& stored_at(bytes, p.attprojb, a + 5 * lc + 4 * lcc, lc)
            &&& stored_at(bytes, p.ln2w, a + 6 * lc + 4 * lcc, lc)
            &&& stored_at(bytes, p.ln2b, a + 7 * lc + 4 * lcc, lc)
            &&& stored_at(bytes, p.fcw, a + 8 * lc + 4 * lcc, 4 * lcc)
            &&& stored_at(bytes, p.fcb, a + 8 * lc + 8 * lcc, 4 * lc)
            &&& stored_at(bytes, p.fcprojw, a + 12 * lc + 8 * lcc, 4 * lcc)
            &&& stored_at(bytes, p.fcprojb, a + 12 * lc + 12 * lcc, lc)
            &&& stored_at(bytes, p.lnfw, a + 13 * lc + 12 * lcc, c)
            &&& stored_at(bytes, p.lnfb, a + 13 * lc + 12 * lcc + c, c)
        }),
{
    let config = header_config(bytes);
    lemma_header_number(bytes, 2);
    lemma_header_number(bytes, 3);
    lemma_header_number(bytes, 4);
    lemma_header_number(bytes, 5);
    lemma_header_number(bytes, 6);
    lemma_positions(config);
    lemma_unpacked_layout(after.params_memory, config);
    let t = config.max_seq_len as int;
    let v = config.vocab_size as int;
    let l = config.num_layers as int;
    let c = config.channels as int;
    let a = v * c + t * c;
    let lc = l * c;
    let lcc = l * c * c;
    let m = after.params_memory;
    let p = after.params;
    lemma_stored(bytes, m, m, 0, m.len() as int);
    lemma_stored(bytes, m, p.wte, 0, v * c);
    lemma_stored(bytes, m, p.wpe, v * c, t * c);
    lemma_stored(bytes, m, p.ln1w, a, lc);
    lemma_stored(bytes, m, p.ln1b, a + lc, lc);
    lemma_stored(bytes, m, p.qkvw, a + 2 * lc, 3 * lcc);
    lemma_stored(bytes, m, p.qkvb, a + 2 * lc + 3 * lcc, 3 * lc);
    lemma_stored(bytes, m, p.attprojw, a + 5 * lc + 3 * lcc, lcc);
    lemma_stored(bytes, m, p.attprojb, a + 5 * lc + 4 * lcc, lc);
    lemma_stored(bytes, m, p.ln2w, a + 6 * lc + 4 * lcc, lc);
    lemma_stored(bytes, m, p.ln2b, a + 7 * lc + 4 * lcc, lc);
    lemma_stored(bytes, m, p.fcw, a + 8 * lc + 4 * lcc, 4 * lcc);
    lemma_stored(bytes, m, p.fcb, a + 8 * lc + 8 * lcc, 4 * lc);
    lemma_stored(bytes, m, p.fcprojw, a + 12 * lc + 8 * lcc, 4 * lcc);
    lemma_stored(bytes, m, p.fcprojb, a + 12 * lc + 12 * lcc, lc);
    lemma_stored(bytes, m, p.lnfw, a + 13 * lc + 12 * lcc, c);
    lemma_stored(bytes, m, p.lnfb, a + 13 * lc + 12 * lcc + c, c);
}

/// A loaded model starts over: it has taken no steps, computed no batch and no gradients, and its
/// mean loss is minus one.
pub proof fn lemma_loaded_starts_over<T: Scalar>(
    r: Reading<T>,
    before: Model<T>,
    after: Model<T>,
    bytes: Seq<u8>,
)
    requires
        exact(r),
        checkpoint_loaded(before, after, bytes),
    ensures
        after.m_memory.len() == 0,
        after.v_memory.len() == 0,
        after.grads_memory.len() == 0,
        after.acts_memory.len() == 0,
        after.grads_acts_memory.len() == 0,
        after.inputs.len() == 0,
        after.targets.len() == 0,
        after.batch_size == 0,
        after.seq_len == 0,
        (r.val)(after.mean_loss) == -1real,
{
    reveal_with_fuel(worth, 3);
    reveal_with_fuel(sound, 3);
    lemma_worth(r, no_loss(), after.mean_loss);
}

/// Number `k` of the header is the one that its four bytes stand for.
proof fn lemma_header_number(bytes: Seq<u8>, k: int)
    requires
        0 <= k < 256,
        1024 <= bytes.len(),
        bytes[4 * k + 3] < 128,
    ensures
        header_number(bytes, k) == number_at(bytes, 4 * k),
        0 <= header_number(bytes, k) <= i32::MAX,
{
    let four = window(bytes, 4 * k, 4);
    assert(four[0] == bytes[4 * k]);
    assert(four[1] == bytes[4 * k + 1]);
    assert(four[2] == bytes[4 * k + 2]);
    assert(four[3] == bytes[4 * k + 3]);
}

/// Where room has been made for a batch, the number of activations is what the tensors hold.
pub proof fn lemma_activations_counted<T: Scalar>(
    before: Model<T>,
    ready: Model<T>,
    b: usize,
    t: usize,
)
    requires
        before.acts_memory.len() == 0,
        room_made(before, ready, b, t),
    ensures
        ready.num_activations == ready.acts.encoded.len()
            + ready.acts.ln1.len()
            + ready.acts.ln1_mean.len()
            + ready.acts.ln1_rstd.len()
            + ready.acts.qkv.len()
            + ready.acts.atty.len()
            + ready.acts.preatt.len()
            + ready.acts.att.len()
            + ready.acts.attproj.len()
            + ready.acts.residual2.len()
            + ready.acts.ln2.len()
            + ready.acts.ln2_mean.len()
            + ready.acts.ln2_rstd.len()
            + ready.acts.fch.len()
            + ready.acts.fch_gelu.len()
            + ready.acts.fcproj.len()
            + ready.acts.residual3.len()
            + ready.acts.lnf.len()
            + ready.acts.lnf_mean.len()
            + ready.acts.lnf_rstd.len()
            + ready.acts.logits.len()
            + ready.acts.probs.len()
            + ready.acts.losses.len(),
{
}

} // verus!
