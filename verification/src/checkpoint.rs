//! Checkpoints: a header of 256 whole numbers, and behind it the parameters.

use vstd::pervasive::unreached;
use vstd::prelude::*;
use vstd::slice::slice_subrange;

use crate::buffer::{resized, window, zeros};
use crate::bytes::{little_endian, little_endian_signed, read_i32, read_u32};
use crate::model::{no_loss, Model, GPT2};
use crate::scalar::{evals, nought, Scalar, Traced};
use crate::tensors::{
    ints, lemma_offsets, lemma_pack_unpacked, offset, param_sizes, param_sizes_fit, parameter_count,
    params_resized, resize_params, unpack, unpacked, GPT2Config,
};

verus! {

/// The first number of every checkpoint.
pub const CHECKPOINT_MAGIC: i32 = 20240326;

/// The one version of the format.
pub const CHECKPOINT_VERSION: i32 = 1;

/// The number of whole numbers in the header.
pub const HEADER_LEN: usize = 256;

/// Why a checkpoint cannot be loaded.
#[derive(Clone, Copy, PartialEq, Eq, Structural, Debug)]
pub enum CheckpointError {
    /// The checkpoint ends too early.
    UnexpectedEof,
    /// This is no checkpoint.
    BadMagic,
    /// The format is of another version.
    BadVersion,
}

impl CheckpointError {
    /// What to tell a user.
    pub fn message(&self) -> (text: &'static str)
        ensures
            text@ == (match *self {
                CheckpointError::UnexpectedEof => "failed to fill whole buffer"@,
                CheckpointError::BadMagic => "Bad magic model file"@,
                CheckpointError::BadVersion => "Bad version in model file"@,
            }),
    {
        match *self {
            CheckpointError::UnexpectedEof => "failed to fill whole buffer",
            CheckpointError::BadMagic => "Bad magic model file",
            CheckpointError::BadVersion => "Bad version in model file",
        }
    }
}

/// Number `i` of the header.
pub open spec fn header_number(bytes: Seq<u8>, i: int) -> i32 {
    little_endian_signed(window(bytes, 4 * i, 4)) as i32
}

/// The shape of the model that the header states.
pub open spec fn header_config(bytes: Seq<u8>) -> GPT2Config {
    GPT2Config {
        max_seq_len: header_number(bytes, 2) as usize,
        vocab_size: header_number(bytes, 3) as usize,
        num_layers: header_number(bytes, 4) as usize,
        num_heads: header_number(bytes, 5) as usize,
        channels: header_number(bytes, 6) as usize,
    }
}

/// The reason for which the header is refused, if it is.
pub open spec fn header_error(bytes: Seq<u8>) -> Option<CheckpointError> {
    if bytes.len() < 1024 {
        Some(CheckpointError::UnexpectedEof)
    } else if header_number(bytes, 0) != 20240326 {
        Some(CheckpointError::BadMagic)
    } else if header_number(bytes, 1) != 1 {
        Some(CheckpointError::BadVersion)
    } else {
        None
    }
}

/// The four bytes of parameter `i`.
pub open spec fn parameter_bytes(bytes: Seq<u8>, i: int) -> Seq<u8> {
    window(bytes, 1024 + 4 * i, 4)
}

/// `x` may be the value of parameter `i`.
pub open spec fn parameter_read<T: Scalar>(bytes: Seq<u8>, i: int, x: T) -> bool {
    call_ensures(T::from_bits, (little_endian(parameter_bytes(bytes, i)) as u32,), x)
}

/// The first `m` of `n` parameters have been read. The others are zero.
pub open spec fn parameters_read<T: Scalar>(
    bytes: Seq<u8>,
    memory: Seq<T>,
    m: int,
    n: int,
) -> bool {
    &&& memory.len() == n
    &&& forall|i: int|
        0 <= i < n ==> if i < m {
            parameter_read(bytes, i, #[trigger] memory[i])
        } else {
            evals(nought(), memory[i])
        }
}

/// The number of whole parameters behind the header.
pub open spec fn parameters_held(bytes: Seq<u8>) -> int {
    (bytes.len() - 1024) / 4
}

/// The model has the shape and the parameters of the checkpoint, and is set back otherwise.
pub open spec fn checkpoint_loaded<T: Scalar>(
    before: Model<T>,
    after: Model<T>,
    bytes: Seq<u8>,
) -> bool {
    let config = header_config(bytes);
    &&& ints(after.param_sizes) == param_sizes(config)
    &&& after.num_parameters == parameter_count(config)
    &&& parameters_read(
        bytes,
        after.params_memory,
        parameter_count(config),
        parameter_count(config),
    )
    &&& params_resized(before.grads, after.grads, param_sizes(config))
    &&& evals(no_loss(), after.mean_loss)
    &&& after == (Model {
        config,
        param_sizes: after.param_sizes,
        num_parameters: after.num_parameters,
        params_memory: after.params_memory,
        params: unpacked(after.params_memory, param_sizes(config)),
        grads: after.grads,
        acts_memory: Seq::empty(),
        grads_memory: Seq::empty(),
        m_memory: Seq::empty(),
        v_memory: Seq::empty(),
        grads_acts_memory: Seq::empty(),
        inputs: Seq::empty(),
        targets: Seq::empty(),
        batch_size: 0,
        seq_len: 0,
        mean_loss: after.mean_loss,
        ..before
    })
}

/// The model has the shape of the checkpoint, and the parameters as far as they go.
pub open spec fn checkpoint_cut_off<T: Scalar>(
    before: Model<T>,
    after: Model<T>,
    bytes: Seq<u8>,
) -> bool {
    let config = header_config(bytes);
    &&& ints(after.param_sizes) == param_sizes(config)
    &&& after.num_parameters == parameter_count(config)
    &&& parameters_read(
        bytes,
        after.params_memory,
        parameters_held(bytes),
        parameter_count(config),
    )
    &&& after == (Model {
        config,
        param_sizes: after.param_sizes,
        num_parameters: after.num_parameters,
        params_memory: after.params_memory,
        ..before
    })
}

/// Reads the header.
pub fn read_header(bytes: &[u8]) -> (r: Result<GPT2Config, CheckpointError>)
    ensures
        match r {
            Ok(config) => header_error(bytes@) is None && config == header_config(bytes@),
            Err(e) => header_error(bytes@) == Some(e),
        },
{
    let mut header: Vec<i32> = Vec::new();
    for i in 0..HEADER_LEN
        invariant
            header@.len() == i,
            4 * i <= bytes.len(),
            forall|j: int| 0 <= j < i ==> #[trigger] header@[j] == header_number(bytes@, j),
    {
        if bytes.len() < 4 * i + 4 {
            return Err(CheckpointError::UnexpectedEof);
        }
        header.push(read_i32(slice_subrange(bytes, 4 * i, 4 * i + 4)));
    }
    if header[0] != CHECKPOINT_MAGIC {
        return Err(CheckpointError::BadMagic);
    }
    if header[1] != CHECKPOINT_VERSION {
        return Err(CheckpointError::BadVersion);
    }
    Ok(
        GPT2Config {
            max_seq_len: header[2] as usize,
            vocab_size: header[3] as usize,
            num_layers: header[4] as usize,
            num_heads: header[5] as usize,
            channels: header[6] as usize,
        },
    )
}

/// No size is negative, and the products come out the same in another order.
pub proof fn lemma_param_sizes(config: GPT2Config)
    ensures
        param_sizes(config).len() == 16,
        forall|k: int| 0 <= k < 16 ==> 0 <= #[trigger] param_sizes(config)[k],
        ({
            let l = config.num_layers as int;
            let c = config.channels as int;
            &&& (l * (3 * c)) * c == l * ((3 * c) * c)
            &&& (l * c) * c == l * (c * c)
            &&& (l * (4 * c)) * c == l * ((4 * c) * c)
            &&& (l * c) * (4 * c) == l * (c * (4 * c))
        }),
{
    let max_t = config.max_seq_len as int;
    let v = config.vocab_size as int;
    let l = config.num_layers as int;
    let c = config.channels as int;
    assert(0 <= v * c && 0 <= max_t * c && 0 <= l * c && 0 <= l * (3 * c) && 0 <= l * (4 * c))
        by (nonlinear_arith)
        requires
            0 <= v,
            0 <= max_t,
            0 <= l,
            0 <= c,
    ;
    assert(0 <= c * c) by (nonlinear_arith)
        requires
            0 <= c,
    ;
    assert((l * c) * c == l * (c * c)) by (nonlinear_arith);
    assert((l * (3 * c)) * c == l * ((3 * c) * c)) by (nonlinear_arith);
    assert((l * (4 * c)) * c == l * ((4 * c) * c)) by (nonlinear_arith);
    assert((l * c) * (4 * c) == l * (c * (4 * c))) by (nonlinear_arith);
    assert(0 <= (l * c) * c && 0 <= (l * (3 * c)) * c && 0 <= (l * (4 * c)) * c && 0 <= (l * c) * (4
        * c)) by (nonlinear_arith)
        requires
            0 <= l * c,
            0 <= l * (3 * c),
            0 <= l * (4 * c),
            0 <= c,
    ;
}

/// One of the sizes of the parameter tensors, or what is computed on the way to them, cannot be
/// counted.
pub open spec fn uncountable(config: GPT2Config) -> bool {
    ||| 4 * config.channels > usize::MAX
    ||| exists|k: int| 0 <= k < 16 && #[trigger] param_sizes(config)[k] > usize::MAX
}

/// The sizes of the parameter tensors, or nothing where one of them cannot be counted.
pub fn checked_param_sizes(config: &GPT2Config) -> (r: Option<Vec<usize>>)
    ensures
        match r {
            Some(sizes) => {
                &&& ints(sizes@) == param_sizes(*config)
                &&& 4 * config.channels <= usize::MAX
            },
            None => uncountable(*config),
        },
{
    proof {
        lemma_param_sizes(*config);
    }
    let ghost all = param_sizes(*config);
    let l = config.num_layers;
    let c = config.channels;
    let c3 = match c.checked_mul(3) {
        Some(x) => x,
        None => return None,
    };
    let c4 = match c.checked_mul(4) {
        Some(x) => x,
        None => return None,
    };
    assert(all[0] <= usize::MAX || uncountable(*config));
    let vc = match config.vocab_size.checked_mul(c) {
        Some(x) => x,
        None => return None,
    };
    assert(all[1] <= usize::MAX || uncountable(*config));
    let tc = match config.max_seq_len.checked_mul(c) {
        Some(x) => x,
        None => return None,
    };
    assert(all[2] <= usize::MAX || uncountable(*config));
    let lc = match l.checked_mul(c) {
        Some(x) => x,
        None => return None,
    };
    assert(all[5] <= usize::MAX || uncountable(*config));
    let lc3 = match l.checked_mul(c3) {
        Some(x) => x,
        None => return None,
    };
    assert(all[11] <= usize::MAX || uncountable(*config));
    let lc4 = match l.checked_mul(c4) {
        Some(x) => x,
        None => return None,
    };
    assert(all[4] <= usize::MAX || uncountable(*config));
    let qkvw = match lc3.checked_mul(c) {
        Some(x) => x,
        None => return None,
    };
    assert(all[6] <= usize::MAX || uncountable(*config));
    let attprojw = match lc.checked_mul(c) {
        Some(x) => x,
        None => return None,
    };
    assert(all[10] <= usize::MAX || uncountable(*config));
    let fcw = match lc4.checked_mul(c) {
        Some(x) => x,
        None => return None,
    };
    assert(all[12] <= usize::MAX || uncountable(*config));
    let fcprojw = match lc.checked_mul(c4) {
        Some(x) => x,
        None => return None,
    };
    let sizes: Vec<usize> = vec![
        vc,
        tc,
        lc,
        lc,
        qkvw,
        lc3,
        attprojw,
        lc,
        lc,
        lc,
        fcw,
        lc4,
        fcprojw,
        lc,
        c,
        c,
    ];
    assert(ints(sizes@) =~= all);
    Some(sizes)
}

/// The sum of the sizes, or nothing where it cannot be counted.
pub fn checked_total(sizes: &Vec<usize>) -> (r: Option<usize>)
    requires
        sizes@.len() == 16,
    ensures
        match r {
            Some(n) => n == offset(ints(sizes@), 16),
            None => offset(ints(sizes@), 16) > usize::MAX,
        },
{
    proof {
        lemma_offsets(ints(sizes@));
    }
    let mut n: usize = 0;
    for k in 0..sizes.len()
        invariant
            sizes@.len() == 16,
            n == offset(ints(sizes@), k as int),
            forall|k: int|
                0 <= k < 16 ==> 0 <= #[trigger] offset(ints(sizes@), k) <= offset(
                    ints(sizes@),
                    k,
                ) + ints(sizes@)[k] == offset(ints(sizes@), k + 1) <= offset(ints(sizes@), 16),
    {
        assert(offset(ints(sizes@), k as int) + ints(sizes@)[k as int] == offset(
            ints(sizes@),
            k + 1,
        ));
        n = match n.checked_add(sizes[k]) {
            Some(x) => x,
            None => return None,
        };
    }
    Some(n)
}

/// Whether the sizes of the parameter tensors of a model, and their sum, can be counted.
pub fn countable(config: &GPT2Config) -> (r: bool)
    ensures
        r == param_sizes_fit(*config),
{
    match checked_param_sizes(config) {
        Some(sizes) => {
            proof {
                lemma_param_sizes(*config);
                assert(sizes@.len() == 16) by {
                    assert(ints(sizes@).len() == 16);
                }
                assert forall|k: int| 0 <= k < 16 implies #[trigger] param_sizes(*config)[k]
                    <= usize::MAX by {
                    assert(ints(sizes@)[k] == sizes@[k]);
                }
            }
            checked_total(&sizes).is_some()
        },
        None => false,
    }
}

/// Reads as many of the parameters as there are into `memory`, and says whether these are all.
fn read_parameters<T: Scalar>(memory: &mut Vec<T>, bytes: &[u8]) -> (done: bool)
    requires
        bytes.len() >= 1024,
        resized(Seq::empty(), old(memory)@, old(memory)@.len() as int),
    ensures
        done == (final(memory)@.len() <= parameters_held(bytes@)),
        parameters_read(
            bytes@,
            final(memory)@,
            if done {
                old(memory)@.len() as int
            } else {
                parameters_held(bytes@)
            },
            old(memory)@.len() as int,
        ),
{
    let n = memory.len();
    let mut at: usize = 1024;
    for i in 0..n
        invariant
            memory@.len() == n,
            old(memory)@.len() == n,
            at == 1024 + 4 * i,
            at <= bytes.len(),
            parameters_read(bytes@, memory@, i as int, n as int),
    {
        if bytes.len() - at < 4 {
            assert(parameters_held(bytes@) == i);
            return false;
        }
        memory.set(i, T::from_bits(read_u32(slice_subrange(bytes, at, at + 4))));
        at = at + 4;
    }
    true
}

/// Loads a checkpoint into the model.
pub fn gpt2_build_from_checkpoint<T: Scalar>(model: &mut GPT2<T>, bytes: &[u8]) -> (r: Result<
    (),
    CheckpointError,
>)
    requires
        header_error(bytes@) is None ==> param_sizes_fit(header_config(bytes@)),
    ensures
        match header_error(bytes@) {
            Some(e) => r == Err::<(), CheckpointError>(e) && final(model)@ == old(model)@,
            None => if parameters_held(bytes@) < parameter_count(header_config(bytes@)) {
                &&& r == Err::<(), CheckpointError>(CheckpointError::UnexpectedEof)
                &&& checkpoint_cut_off(old(model)@, final(model)@, bytes@)
            } else {
                &&& r is Ok
                &&& checkpoint_loaded(old(model)@, final(model)@, bytes@)
            },
        },
{
    let config = match read_header(bytes) {
        Ok(config) => config,
        Err(e) => return Err(e),
    };
    let ghost sizes = param_sizes(config);
    model.config = config;
    let param_sizes = match checked_param_sizes(&config) {
        Some(x) => x,
        None => unreached(),
    };
    model.param_sizes = param_sizes;
    proof {
        lemma_param_sizes(config);
        assert(ints(model.param_sizes@).len() == 16);
    }
    let num_parameters = match checked_total(&model.param_sizes) {
        Some(x) => x,
        None => unreached(),
    };
    model.num_parameters = num_parameters;
    model.params_memory = zeros(model.num_parameters);
    if !read_parameters(&mut model.params_memory, bytes) {
        return Err(CheckpointError::UnexpectedEof);
    }
    model.params = unpack(&model.params_memory, &model.param_sizes);
    proof {
        lemma_pack_unpacked(model.params_memory@, sizes);
    }
    model.acts_memory = Vec::new();
    model.grads_memory = Vec::new();
    model.m_memory = Vec::new();
    model.v_memory = Vec::new();
    model.grads_acts_memory = Vec::new();
    model.inputs = Vec::new();
    model.targets = Vec::new();
    model.batch_size = 0;
    model.seq_len = 0;
    model.mean_loss = Traced::one().neg().v;
    resize_params(&mut model.grads, &model.params);
    Ok(())
}

} // verus!
