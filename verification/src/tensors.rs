//! The tensors of the model and their sizes.

use vstd::arithmetic::mul::lemma_mul_is_associative;
use vstd::prelude::*;
use vstd::slice::{slice_subrange, slice_to_vec};

use crate::buffer::{put, resize, resized, splice, window};
use crate::scalar::{evals, nought, Scalar, Traced};

verus! {

/// The number of parameter tensors.
pub const NUM_PARAMETER_TENSORS: usize = 16;

/// The shape of the model.
#[derive(Clone, Copy, PartialEq, Eq, Structural, Debug)]
pub struct GPT2Config {
    /// The longest sequence.
    pub max_seq_len: usize,
    /// The number of tokens.
    pub vocab_size: usize,
    /// The number of layers.
    pub num_layers: usize,
    /// The number of heads of each layer.
    pub num_heads: usize,
    /// The number of channels.
    pub channels: usize,
}

/// The parameters of the model, or their gradients.
pub struct ParameterTensors<T> {
    /// Token embeddings, `v` rows of `c`.
    pub wte: Vec<T>,
    /// Position embeddings, one row of `c` for each place.
    pub wpe: Vec<T>,
    /// Weights of the first normalisation of each layer.
    pub ln1w: Vec<T>,
    /// Shifts of the first normalisation of each layer.
    pub ln1b: Vec<T>,
    /// Weights of the queries, keys and values of each layer.
    pub qkvw: Vec<T>,
    /// Biases of the queries, keys and values of each layer.
    pub qkvb: Vec<T>,
    /// Weights of the projection behind the attention of each layer.
    pub attprojw: Vec<T>,
    /// Biases of the projection behind the attention of each layer.
    pub attprojb: Vec<T>,
    /// Weights of the second normalisation of each layer.
    pub ln2w: Vec<T>,
    /// Shifts of the second normalisation of each layer.
    pub ln2b: Vec<T>,
    /// Weights of the wide projection of each layer.
    pub fcw: Vec<T>,
    /// Biases of the wide projection of each layer.
    pub fcb: Vec<T>,
    /// Weights of the projection back of each layer.
    pub fcprojw: Vec<T>,
    /// Biases of the projection back of each layer.
    pub fcprojb: Vec<T>,
    /// Weights of the last normalisation.
    pub lnfw: Vec<T>,
    /// Shifts of the last normalisation.
    pub lnfb: Vec<T>,
}

/// The contents of [`ParameterTensors`].
#[verifier::ext_equal]
pub struct Params<T> {
    pub wte: Seq<T>,
    pub wpe: Seq<T>,
    pub ln1w: Seq<T>,
    pub ln1b: Seq<T>,
    pub qkvw: Seq<T>,
    pub qkvb: Seq<T>,
    pub attprojw: Seq<T>,
    pub attprojb: Seq<T>,
    pub ln2w: Seq<T>,
    pub ln2b: Seq<T>,
    pub fcw: Seq<T>,
    pub fcb: Seq<T>,
    pub fcprojw: Seq<T>,
    pub fcprojb: Seq<T>,
    pub lnfw: Seq<T>,
    pub lnfb: Seq<T>,
}

impl<T> View for ParameterTensors<T> {
    type V = Params<T>;

    open spec fn view(&self) -> Params<T> {
        Params {
            wte: self.wte@,
            wpe: self.wpe@,
            ln1w: self.ln1w@,
            ln1b: self.ln1b@,
            qkvw: self.qkvw@,
            qkvb: self.qkvb@,
            attprojw: self.attprojw@,
            attprojb: self.attprojb@,
            ln2w: self.ln2w@,
            ln2b: self.ln2b@,
            fcw: self.fcw@,
            fcb: self.fcb@,
            fcprojw: self.fcprojw@,
            fcprojb: self.fcprojb@,
            lnfw: self.lnfw@,
            lnfb: self.lnfb@,
        }
    }
}

/// The activations of the model, or their gradients.
pub struct ActivationTensors<T> {
    /// The embeddings.
    pub encoded: Vec<T>,
    /// The first normalisation of each layer.
    pub ln1: Vec<T>,
    /// Its means.
    pub ln1_mean: Vec<T>,
    /// Its scales.
    pub ln1_rstd: Vec<T>,
    /// The queries, keys and values of each layer.
    pub qkv: Vec<T>,
    /// The output of the attention of each layer.
    pub atty: Vec<T>,
    /// The scaled scores of each layer.
    pub preatt: Vec<T>,
    /// The attention of each layer.
    pub att: Vec<T>,
    /// The projection behind the attention of each layer.
    pub attproj: Vec<T>,
    /// The first residual sum of each layer.
    pub residual2: Vec<T>,
    /// The second normalisation of each layer.
    pub ln2: Vec<T>,
    /// Its means.
    pub ln2_mean: Vec<T>,
    /// Its scales.
    pub ln2_rstd: Vec<T>,
    /// The wide projection of each layer.
    pub fch: Vec<T>,
    /// Its activation.
    pub fch_gelu: Vec<T>,
    /// The projection back of each layer.
    pub fcproj: Vec<T>,
    /// The second residual sum of each layer.
    pub residual3: Vec<T>,
    /// The last normalisation.
    pub lnf: Vec<T>,
    /// Its means.
    pub lnf_mean: Vec<T>,
    /// Its scales.
    pub lnf_rstd: Vec<T>,
    /// The logits.
    pub logits: Vec<T>,
    /// The probabilities.
    pub probs: Vec<T>,
    /// The losses.
    pub losses: Vec<T>,
}

/// The contents of [`ActivationTensors`].
#[verifier::ext_equal]
pub struct Acts<T> {
    pub encoded: Seq<T>,
    pub ln1: Seq<T>,
    pub ln1_mean: Seq<T>,
    pub ln1_rstd: Seq<T>,
    pub qkv: Seq<T>,
    pub atty: Seq<T>,
    pub preatt: Seq<T>,
    pub att: Seq<T>,
    pub attproj: Seq<T>,
    pub residual2: Seq<T>,
    pub ln2: Seq<T>,
    pub ln2_mean: Seq<T>,
    pub ln2_rstd: Seq<T>,
    pub fch: Seq<T>,
    pub fch_gelu: Seq<T>,
    pub fcproj: Seq<T>,
    pub residual3: Seq<T>,
    pub lnf: Seq<T>,
    pub lnf_mean: Seq<T>,
    pub lnf_rstd: Seq<T>,
    pub logits: Seq<T>,
    pub probs: Seq<T>,
    pub losses: Seq<T>,
}

impl<T> View for ActivationTensors<T> {
    type V = Acts<T>;

    open spec fn view(&self) -> Acts<T> {
        Acts {
            encoded: self.encoded@,
            ln1: self.ln1@,
            ln1_mean: self.ln1_mean@,
            ln1_rstd: self.ln1_rstd@,
            qkv: self.qkv@,
            atty: self.atty@,
            preatt: self.preatt@,
            att: self.att@,
            attproj: self.attproj@,
            residual2: self.residual2@,
            ln2: self.ln2@,
            ln2_mean: self.ln2_mean@,
            ln2_rstd: self.ln2_rstd@,
            fch: self.fch@,
            fch_gelu: self.fch_gelu@,
            fcproj: self.fcproj@,
            residual3: self.residual3@,
            lnf: self.lnf@,
            lnf_mean: self.lnf_mean@,
            lnf_rstd: self.lnf_rstd@,
            logits: self.logits@,
            probs: self.probs@,
            losses: self.losses@,
        }
    }
}

/// The sizes of the parameter tensors, in the order in which they lie in memory.
pub open spec fn param_sizes(config: GPT2Config) -> Seq<int> {
    let max_t = config.max_seq_len as int;
    let v = config.vocab_size as int;
    let l = config.num_layers as int;
    let c = config.channels as int;
    seq![
        v * c,
        max_t * c,
        l * c,
        l * c,
        l * ((3 * c) * c),
        l * (3 * c),
        l * (c * c),
        l * c,
        l * c,
        l * c,
        l * ((4 * c) * c),
        l * (4 * c),
        l * (c * (4 * c)),
        l * c,
        c,
        c,
    ]
}

/// Where tensor `k` begins in memory: behind the first `k` of them.
pub open spec fn offset(sizes: Seq<int>, k: int) -> int
    decreases k,
{
    if k <= 0 {
        0
    } else {
        offset(sizes, k - 1) + sizes[k - 1]
    }
}

/// The number of parameters.
pub open spec fn parameter_count(config: GPT2Config) -> int {
    offset(param_sizes(config), 16)
}

/// The sizes of the parameter tensors, and what is computed on the way to them, can be counted.
pub open spec fn param_sizes_fit(config: GPT2Config) -> bool {
    &&& forall|k: int| 0 <= k < 16 ==> #[trigger] param_sizes(config)[k] <= usize::MAX
    &&& 4 * config.channels <= usize::MAX
    &&& parameter_count(config) <= usize::MAX
}

/// The tensors have the given sizes.
pub open spec fn params_sized<T>(p: Params<T>, sizes: Seq<int>) -> bool {
    &&& p.wte.len() == sizes[0]
    &&& p.wpe.len() == sizes[1]
    &&& p.ln1w.len() == sizes[2]
    &&& p.ln1b.len() == sizes[3]
    &&& p.qkvw.len() == sizes[4]
    &&& p.qkvb.len() == sizes[5]
    &&& p.attprojw.len() == sizes[6]
    &&& p.attprojb.len() == sizes[7]
    &&& p.ln2w.len() == sizes[8]
    &&& p.ln2b.len() == sizes[9]
    &&& p.fcw.len() == sizes[10]
    &&& p.fcb.len() == sizes[11]
    &&& p.fcprojw.len() == sizes[12]
    &&& p.fcprojb.len() == sizes[13]
    &&& p.lnfw.len() == sizes[14]
    &&& p.lnfb.len() == sizes[15]
}

/// The tensors that lie in `memory` one behind the other, with the given sizes.
pub open spec fn unpacked<T>(memory: Seq<T>, sizes: Seq<int>) -> Params<T> {
    Params {
        wte: window(memory, offset(sizes, 0), sizes[0]),
        wpe: window(memory, offset(sizes, 1), sizes[1]),
        ln1w: window(memory, offset(sizes, 2), sizes[2]),
        ln1b: window(memory, offset(sizes, 3), sizes[3]),
        qkvw: window(memory, offset(sizes, 4), sizes[4]),
        qkvb: window(memory, offset(sizes, 5), sizes[5]),
        attprojw: window(memory, offset(sizes, 6), sizes[6]),
        attprojb: window(memory, offset(sizes, 7), sizes[7]),
        ln2w: window(memory, offset(sizes, 8), sizes[8]),
        ln2b: window(memory, offset(sizes, 9), sizes[9]),
        fcw: window(memory, offset(sizes, 10), sizes[10]),
        fcb: window(memory, offset(sizes, 11), sizes[11]),
        fcprojw: window(memory, offset(sizes, 12), sizes[12]),
        fcprojb: window(memory, offset(sizes, 13), sizes[13]),
        lnfw: window(memory, offset(sizes, 14), sizes[14]),
        lnfb: window(memory, offset(sizes, 15), sizes[15]),
    }
}

/// The tensors, in the order in which they lie in memory.
pub open spec fn tensor_list<T>(p: Params<T>) -> Seq<Seq<T>> {
    seq![
        p.wte,
        p.wpe,
        p.ln1w,
        p.ln1b,
        p.qkvw,
        p.qkvb,
        p.attprojw,
        p.attprojb,
        p.ln2w,
        p.ln2b,
        p.fcw,
        p.fcb,
        p.fcprojw,
        p.fcprojb,
        p.lnfw,
        p.lnfb,
    ]
}

/// The first `n` tensors of a list, one behind the other.
pub open spec fn flat<T>(list: Seq<Seq<T>>, n: int) -> Seq<T>
    decreases n,
{
    if n <= 0 {
        Seq::empty()
    } else {
        flat(list, n - 1) + list[n - 1]
    }
}

/// The parameter tensors, one behind the other.
pub open spec fn packed<T>(p: Params<T>) -> Seq<T> {
    flat(tensor_list(p), 16)
}

proof fn lemma_flat_of_windows<T>(list: Seq<Seq<T>>, memory: Seq<T>, sizes: Seq<int>, n: int)
    requires
        0 <= n,
        forall|k: int| 0 <= k < n ==> 0 <= #[trigger] sizes[k],
        offset(sizes, n) <= memory.len(),
        forall|k: int|
            0 <= k < n ==> #[trigger] list[k] == window(memory, offset(sizes, k), sizes[k]),
    ensures
        0 <= offset(sizes, n),
        flat(list, n) == memory.subrange(0, offset(sizes, n)),
    decreases n,
{
    if n > 0 {
        assert(0 <= sizes[n - 1]);
        lemma_flat_of_windows(list, memory, sizes, n - 1);
        assert(list[n - 1] == window(memory, offset(sizes, n - 1), sizes[n - 1]));
    }
    assert(flat(list, n) =~= memory.subrange(0, offset(sizes, n)));
}

/// Tensor `k` of the list lies behind the first `k` in `memory`.
spec fn lies_in<T>(memory: Seq<T>, list: Seq<Seq<T>>, sizes: Seq<int>, k: int) -> bool {
    &&& 0 <= offset(sizes, k)
    &&& offset(sizes, k) + sizes[k] <= memory.len()
    &&& window(memory, offset(sizes, k), sizes[k]) == list[k]
}

proof fn lemma_windows_of_flat<T>(list: Seq<Seq<T>>, sizes: Seq<int>, n: int)
    requires
        0 <= n,
        forall|k: int| 0 <= k < n ==> sizes[k] == (#[trigger] list[k]).len(),
    ensures
        flat(list, n).len() == offset(sizes, n),
        forall|k: int| 0 <= k < n ==> #[trigger] lies_in(flat(list, n), list, sizes, k),
    decreases n,
{
    if n > 0 {
        lemma_windows_of_flat(list, sizes, n - 1);
        let less = flat(list, n - 1);
        let all = flat(list, n);
        assert(sizes[n - 1] == list[n - 1].len());
        assert forall|k: int| 0 <= k < n implies #[trigger] lies_in(all, list, sizes, k) by {
            if k < n - 1 {
                assert(lies_in(less, list, sizes, k));
                assert(sizes[k] == list[k].len());
                assert(window(all, offset(sizes, k), sizes[k]) =~= window(
                    less,
                    offset(sizes, k),
                    sizes[k],
                ));
            } else {
                assert(window(all, offset(sizes, k), sizes[k]) =~= list[k]);
            }
        }
    }
}

/// Tensors that are taken out of memory and put back make up the part of it that they were
/// taken from.
pub proof fn lemma_pack_unpacked<T>(memory: Seq<T>, sizes: Seq<int>)
    requires
        forall|k: int| 0 <= k < 16 ==> 0 <= #[trigger] sizes[k],
        offset(sizes, 16) <= memory.len(),
    ensures
        packed(unpacked(memory, sizes)) == memory.subrange(0, offset(sizes, 16)),
        params_sized(unpacked(memory, sizes), sizes),
{
    lemma_flat_of_windows(tensor_list(unpacked(memory, sizes)), memory, sizes, 16);
    lemma_offsets(sizes);
}

/// The tensors lie in memory one behind the other.
pub proof fn lemma_offsets(sizes: Seq<int>)
    requires
        forall|k: int| 0 <= k < 16 ==> 0 <= #[trigger] sizes[k],
    ensures
        offset(sizes, 0) == 0,
        forall|k: int|
            0 <= k < 16 ==> 0 <= #[trigger] offset(sizes, k) <= offset(sizes, k) + sizes[k]
                == offset(sizes, k + 1) <= offset(sizes, 16),
{
    lemma_offsets_upto(sizes, 16);
}

proof fn lemma_offsets_upto(sizes: Seq<int>, n: int)
    requires
        0 <= n <= 16,
        forall|k: int| 0 <= k < 16 ==> 0 <= #[trigger] sizes[k],
    ensures
        0 <= offset(sizes, n),
        forall|k: int|
            0 <= k < n ==> 0 <= #[trigger] offset(sizes, k) <= offset(sizes, k) + sizes[k]
                == offset(sizes, k + 1) <= offset(sizes, n),
    decreases n,
{
    if n > 0 {
        assert(0 <= sizes[n - 1]);
        lemma_offsets_upto(sizes, n - 1);
    }
}

/// Tensors that are put into memory are found there.
pub proof fn lemma_unpack_packed<T>(p: Params<T>, sizes: Seq<int>)
    requires
        params_sized(p, sizes),
    ensures
        packed(p).len() == offset(sizes, 16),
        unpacked(packed(p), sizes) == p,
{
    let list = tensor_list(p);
    lemma_windows_of_flat(list, sizes, 16);
    let q = unpacked(packed(p), sizes);
    assert(tensor_list(q) =~= list) by {
        assert forall|k: int| 0 <= k < 16 implies tensor_list(q)[k] == list[k] by {
            assert(lies_in(flat(list, 16), list, sizes, k));
        }
    }

    assert(q.wte == tensor_list(q)[0]);
    assert(q.wpe == tensor_list(q)[1]);
    assert(q.ln1w == tensor_list(q)[2]);
    assert(q.ln1b == tensor_list(q)[3]);
    assert(q.qkvw == tensor_list(q)[4]);
    assert(q.qkvb == tensor_list(q)[5]);
    assert(q.attprojw == tensor_list(q)[6]);
    assert(q.attprojb == tensor_list(q)[7]);
    assert(q.ln2w == tensor_list(q)[8]);
    assert(q.ln2b == tensor_list(q)[9]);
    assert(q.fcw == tensor_list(q)[10]);
    assert(q.fcb == tensor_list(q)[11]);
    assert(q.fcprojw == tensor_list(q)[12]);
    assert(q.fcprojb == tensor_list(q)[13]);
    assert(q.lnfw == tensor_list(q)[14]);
    assert(q.lnfb == tensor_list(q)[15]);
}

/// The sizes of the activation tensors for `b` sequences of `t` tokens.
pub open spec fn acts_sized<T>(
    a: Acts<T>,
    b: int,
    t: int,
    l: int,
    nh: int,
    c: int,
    v: int,
) -> bool {
    let n = b * t;
    let h = b * nh;
    &&& a.encoded.len() == n * c
    &&& a.ln1.len() == l * (n * c)
    &&& a.ln1_mean.len() == l * n
    &&& a.ln1_rstd.len() == l * n
    &&& a.qkv.len() == l * (n * (3 * c))
    &&& a.atty.len() == l * (n * c)
    &&& a.preatt.len() == l * (h * (t * t))
    &&& a.att.len() == l * (h * (t * t))
    &&& a.attproj.len() == l * (n * c)
    &&& a.residual2.len() == l * (n * c)
    &&& a.ln2.len() == l * (n * c)
    &&& a.ln2_mean.len() == l * n
    &&& a.ln2_rstd.len() == l * n
    &&& a.fch.len() == l * (n * (4 * c))
    &&& a.fch_gelu.len() == l * (n * (4 * c))
    &&& a.fcproj.len() == l * (n * c)
    &&& a.residual3.len() == l * (n * c)
    &&& a.lnf.len() == n * c
    &&& a.lnf_mean.len() == n
    &&& a.lnf_rstd.len() == n
    &&& a.logits.len() == n * v
    &&& a.probs.len() == n * v
    &&& a.losses.len() == n
}

/// Every activation tensor is cut down or filled up with zeros to its size for `b` sequences of
/// `t` tokens.
pub open spec fn acts_resized<T: Scalar>(
    before: Acts<T>,
    after: Acts<T>,
    b: int,
    t: int,
    l: int,
    nh: int,
    c: int,
    v: int,
) -> bool {
    let n = b * t;
    let h = b * nh;
    &&& resized(before.encoded, after.encoded, n * c)
    &&& resized(before.ln1, after.ln1, l * (n * c))
    &&& resized(before.ln1_mean, after.ln1_mean, l * n)
    &&& resized(before.ln1_rstd, after.ln1_rstd, l * n)
    &&& resized(before.qkv, after.qkv, l * (n * (3 * c)))
    &&& resized(before.atty, after.atty, l * (n * c))
    &&& resized(before.preatt, after.preatt, l * (h * (t * t)))
    &&& resized(before.att, after.att, l * (h * (t * t)))
    &&& resized(before.attproj, after.attproj, l * (n * c))
    &&& resized(before.residual2, after.residual2, l * (n * c))
    &&& resized(before.ln2, after.ln2, l * (n * c))
    &&& resized(before.ln2_mean, after.ln2_mean, l * n)
    &&& resized(before.ln2_rstd, after.ln2_rstd, l * n)
    &&& resized(before.fch, after.fch, l * (n * (4 * c)))
    &&& resized(before.fch_gelu, after.fch_gelu, l * (n * (4 * c)))
    &&& resized(before.fcproj, after.fcproj, l * (n * c))
    &&& resized(before.residual3, after.residual3, l * (n * c))
    &&& resized(before.lnf, after.lnf, n * c)
    &&& resized(before.lnf_mean, after.lnf_mean, n)
    &&& resized(before.lnf_rstd, after.lnf_rstd, n)
    &&& resized(before.logits, after.logits, n * v)
    &&& resized(before.probs, after.probs, n * v)
    &&& resized(before.losses, after.losses, n)
}

/// The number of activations for `b` sequences of `t` tokens.
pub open spec fn activation_count(b: int, t: int, l: int, nh: int, c: int, v: int) -> int {
    let n = b * t;
    let h = b * nh;
    n * c
        + l * (n * c)
        + l * n
        + l * n
        + l * (n * (3 * c))
        + l * (n * c)
        + l * (h * (t * t))
        + l * (h * (t * t))
        + l * (n * c)
        + l * (n * c)
        + l * (n * c)
        + l * n
        + l * n
        + l * (n * (4 * c))
        + l * (n * (4 * c))
        + l * (n * c)
        + l * (n * c)
        + n * c
        + n
        + n
        + n * v
        + n * v
        + n
}

/// The sizes of the activation tensors, and what is computed on the way to them, can be counted.
pub open spec fn acts_fit(b: int, t: int, l: int, nh: int, c: int, v: int) -> bool {
    &&& 0 <= b
    &&& 0 <= t
    &&& 0 <= l
    &&& 0 <= nh
    &&& 0 <= c
    &&& 0 <= v
    &&& b * t <= usize::MAX
    &&& b * t * c <= usize::MAX
    &&& b * t * v <= usize::MAX
    &&& l * b <= usize::MAX
    &&& l * b * t <= usize::MAX
    &&& l * b * t * c <= usize::MAX
    &&& l * b * t * 3 <= usize::MAX
    &&& l * b * t * 3 * c <= usize::MAX
    &&& l * b * t * 4 <= usize::MAX
    &&& l * b * t * 4 * c <= usize::MAX
    &&& l * b * nh <= usize::MAX
    &&& l * b * nh * t <= usize::MAX
    &&& l * b * nh * t * t <= usize::MAX
}

impl<T> ParameterTensors<T> {
    /// No parameters.
    pub fn empty() -> (p: ParameterTensors<T>)
        ensures
            p@.wte == Seq::<T>::empty(),
            p@.wpe == Seq::<T>::empty(),
            p@.ln1w == Seq::<T>::empty(),
            p@.ln1b == Seq::<T>::empty(),
            p@.qkvw == Seq::<T>::empty(),
            p@.qkvb == Seq::<T>::empty(),
            p@.attprojw == Seq::<T>::empty(),
            p@.attprojb == Seq::<T>::empty(),
            p@.ln2w == Seq::<T>::empty(),
            p@.ln2b == Seq::<T>::empty(),
            p@.fcw == Seq::<T>::empty(),
            p@.fcb == Seq::<T>::empty(),
            p@.fcprojw == Seq::<T>::empty(),
            p@.fcprojb == Seq::<T>::empty(),
            p@.lnfw == Seq::<T>::empty(),
            p@.lnfb == Seq::<T>::empty(),
    {
        ParameterTensors {
            wte: Vec::new(),
            wpe: Vec::new(),
            ln1w: Vec::new(),
            ln1b: Vec::new(),
            qkvw: Vec::new(),
            qkvb: Vec::new(),
            attprojw: Vec::new(),
            attprojb: Vec::new(),
            ln2w: Vec::new(),
            ln2b: Vec::new(),
            fcw: Vec::new(),
            fcb: Vec::new(),
            fcprojw: Vec::new(),
            fcprojb: Vec::new(),
            lnfw: Vec::new(),
            lnfb: Vec::new(),
        }
    }
}

impl<T> ActivationTensors<T> {
    /// No activations.
    pub fn empty() -> (a: ActivationTensors<T>)
        ensures
            a@.encoded == Seq::<T>::empty(),
            a@.ln1 == Seq::<T>::empty(),
            a@.ln1_mean == Seq::<T>::empty(),
            a@.ln1_rstd == Seq::<T>::empty(),
            a@.qkv == Seq::<T>::empty(),
            a@.atty == Seq::<T>::empty(),
            a@.preatt == Seq::<T>::empty(),
            a@.att == Seq::<T>::empty(),
            a@.attproj == Seq::<T>::empty(),
            a@.residual2 == Seq::<T>::empty(),
            a@.ln2 == Seq::<T>::empty(),
            a@.ln2_mean == Seq::<T>::empty(),
            a@.ln2_rstd == Seq::<T>::empty(),
            a@.fch == Seq::<T>::empty(),
            a@.fch_gelu == Seq::<T>::empty(),
            a@.fcproj == Seq::<T>::empty(),
            a@.residual3 == Seq::<T>::empty(),
            a@.lnf == Seq::<T>::empty(),
            a@.lnf_mean == Seq::<T>::empty(),
            a@.lnf_rstd == Seq::<T>::empty(),
            a@.logits == Seq::<T>::empty(),
            a@.probs == Seq::<T>::empty(),
            a@.losses == Seq::<T>::empty(),
    {
        ActivationTensors {
            encoded: Vec::new(),
            ln1: Vec::new(),
            ln1_mean: Vec::new(),
            ln1_rstd: Vec::new(),
            qkv: Vec::new(),
            atty: Vec::new(),
            preatt: Vec::new(),
            att: Vec::new(),
            attproj: Vec::new(),
            residual2: Vec::new(),
            ln2: Vec::new(),
            ln2_mean: Vec::new(),
            ln2_rstd: Vec::new(),
            fch: Vec::new(),
            fch_gelu: Vec::new(),
            fcproj: Vec::new(),
            residual3: Vec::new(),
            lnf: Vec::new(),
            lnf_mean: Vec::new(),
            lnf_rstd: Vec::new(),
            logits: Vec::new(),
            probs: Vec::new(),
            losses: Vec::new(),
        }
    }
}

/// The sizes as numbers.
pub open spec fn ints(sizes: Seq<usize>) -> Seq<int> {
    Seq::new(sizes.len(), |k: int| sizes[k] as int)
}

/// `after` is as long as `before`, and all zeros.
pub open spec fn zeroed<T: Scalar>(before: Seq<T>, after: Seq<T>) -> bool {
    &&& after.len() == before.len()
    &&& forall|i: int| 0 <= i < after.len() ==> evals(nought(), #[trigger] after[i])
}

/// Sets every element to zero.
pub fn fill_zero<T: Scalar>(v: &mut Vec<T>)
    ensures
        zeroed(old(v)@, final(v)@),
{
    let zero = Traced::<T>::zero();
    let len = v.len();
    for i in 0..len
        invariant
            v@.len() == len,
            zero.ok(),
            zero.e@ == nought::<T>(),
            forall|j: int| 0 <= j < i ==> evals(nought(), #[trigger] v@[j]),
    {
        v[i] = zero.v;
    }
}

/// Copies `src` to `dst` behind what has been copied so far, and says where it ends.
fn pack_next<T: Copy>(
    dst: &mut [T],
    src: &Vec<T>,
    at: usize,
    Ghost(before): Ghost<Seq<T>>,
    Ghost(list): Ghost<Seq<Seq<T>>>,
    Ghost(k): Ghost<int>,
) -> (end: usize)
    requires
        0 <= k,
        old(dst)@ == splice(before, 0, flat(list, k)),
        at == flat(list, k).len(),
        src@ == list[k],
        at + src@.len() <= old(dst).len(),
    ensures
        final(dst)@ == splice(before, 0, flat(list, k + 1)),
        end == flat(list, k + 1).len(),
        end == at + src@.len(),
{
    put(dst, at, src.as_slice());
    at + src.len()
}

/// Copies the tensors to the start of `memory`, one behind the other.
pub fn pack<T: Scalar>(memory: &mut [T], p: &ParameterTensors<T>)
    requires
        packed(p@).len() <= old(memory).len(),
    ensures
        final(memory)@ == splice(old(memory)@, 0, packed(p@)),
{
    let ghost before = memory@;
    let ghost list = tensor_list(p@);
    proof {
        lemma_flat_grows(list, 16);
        assert(splice(before, 0, flat(list, 0)) =~= before);
    }
    let at: usize = 0;
    let at = pack_next(memory, &p.wte, at, Ghost(before), Ghost(list), Ghost(0));
    let at = pack_next(memory, &p.wpe, at, Ghost(before), Ghost(list), Ghost(1));
    let at = pack_next(memory, &p.ln1w, at, Ghost(before), Ghost(list), Ghost(2));
    let at = pack_next(memory, &p.ln1b, at, Ghost(before), Ghost(list), Ghost(3));
    let at = pack_next(memory, &p.qkvw, at, Ghost(before), Ghost(list), Ghost(4));
    let at = pack_next(memory, &p.qkvb, at, Ghost(before), Ghost(list), Ghost(5));
    let at = pack_next(memory, &p.attprojw, at, Ghost(before), Ghost(list), Ghost(6));
    let at = pack_next(memory, &p.attprojb, at, Ghost(before), Ghost(list), Ghost(7));
    let at = pack_next(memory, &p.ln2w, at, Ghost(before), Ghost(list), Ghost(8));
    let at = pack_next(memory, &p.ln2b, at, Ghost(before), Ghost(list), Ghost(9));
    let at = pack_next(memory, &p.fcw, at, Ghost(before), Ghost(list), Ghost(10));
    let at = pack_next(memory, &p.fcb, at, Ghost(before), Ghost(list), Ghost(11));
    let at = pack_next(memory, &p.fcprojw, at, Ghost(before), Ghost(list), Ghost(12));
    let at = pack_next(memory, &p.fcprojb, at, Ghost(before), Ghost(list), Ghost(13));
    let at = pack_next(memory, &p.lnfw, at, Ghost(before), Ghost(list), Ghost(14));
    let at = pack_next(memory, &p.lnfb, at, Ghost(before), Ghost(list), Ghost(15));
}

proof fn lemma_flat_grows<T>(list: Seq<Seq<T>>, n: int)
    requires
        0 <= n,
    ensures
        forall|k: int|
            0 <= k < n ==> #[trigger] flat(list, k).len() + list[k].len() <= flat(list, n).len(),
    decreases n,
{
    if n > 0 {
        lemma_flat_grows(list, n - 1);
    }
}

/// Copies one tensor out of memory.
fn unpack_next<T: Copy>(
    dst: &mut Vec<T>,
    memory: &[T],
    at: usize,
    size: usize,
) -> (end: usize)
    requires
        at + size <= memory.len(),
        old(dst)@.len() == size,
    ensures
        final(dst)@ == window(memory@, at as int, size as int),
        end == at + size,
{
    put(dst.as_mut_slice(), 0, slice_subrange(memory, at, at + size));
    proof {
        assert(dst@ =~= window(memory@, at as int, size as int));
    }
    at + size
}

/// Copies the tensors, which have the given sizes, out of `memory`.
pub fn unpack_into<T: Scalar>(p: &mut ParameterTensors<T>, memory: &[T], sizes: &Vec<usize>)
    requires
        sizes@.len() >= 16,
        params_sized(old(p)@, ints(sizes@)),
        offset(ints(sizes@), 16) <= memory.len(),
    ensures
        final(p)@ == unpacked(memory@, ints(sizes@)),
{
    proof {
        lemma_offsets(ints(sizes@));
    }
    let at: usize = 0;
    assert(offset(ints(sizes@), 0) == at);
    let at = unpack_next(&mut p.wte, memory, at, sizes[0]);
    assert(offset(ints(sizes@), 1) == at);
    let at = unpack_next(&mut p.wpe, memory, at, sizes[1]);
    assert(offset(ints(sizes@), 2) == at);
    let at = unpack_next(&mut p.ln1w, memory, at, sizes[2]);
    assert(offset(ints(sizes@), 3) == at);
    let at = unpack_next(&mut p.ln1b, memory, at, sizes[3]);
    assert(offset(ints(sizes@), 4) == at);
    let at = unpack_next(&mut p.qkvw, memory, at, sizes[4]);
    assert(offset(ints(sizes@), 5) == at);
    let at = unpack_next(&mut p.qkvb, memory, at, sizes[5]);
    assert(offset(ints(sizes@), 6) == at);
    let at = unpack_next(&mut p.attprojw, memory, at, sizes[6]);
    assert(offset(ints(sizes@), 7) == at);
    let at = unpack_next(&mut p.attprojb, memory, at, sizes[7]);
    assert(offset(ints(sizes@), 8) == at);
    let at = unpack_next(&mut p.ln2w, memory, at, sizes[8]);
    assert(offset(ints(sizes@), 9) == at);
    let at = unpack_next(&mut p.ln2b, memory, at, sizes[9]);
    assert(offset(ints(sizes@), 10) == at);
    let at = unpack_next(&mut p.fcw, memory, at, sizes[10]);
    assert(offset(ints(sizes@), 11) == at);
    let at = unpack_next(&mut p.fcb, memory, at, sizes[11]);
    assert(offset(ints(sizes@), 12) == at);
    let at = unpack_next(&mut p.fcprojw, memory, at, sizes[12]);
    assert(offset(ints(sizes@), 13) == at);
    let at = unpack_next(&mut p.fcprojb, memory, at, sizes[13]);
    assert(offset(ints(sizes@), 14) == at);
    let at = unpack_next(&mut p.lnfw, memory, at, sizes[14]);
    assert(offset(ints(sizes@), 15) == at);
    let at = unpack_next(&mut p.lnfb, memory, at, sizes[15]);
}

/// Copies the tensors, which have the given sizes, out of `memory` into new buffers.
pub fn unpack<T: Scalar>(memory: &[T], sizes: &Vec<usize>) -> (p: ParameterTensors<T>)
    requires
        sizes@.len() >= 16,
        offset(ints(sizes@), 16) <= memory.len(),
    ensures
        p@ == unpacked(memory@, ints(sizes@)),
{
    proof {
        lemma_offsets(ints(sizes@));
    }
    let at: usize = 0;
    assert(offset(ints(sizes@), 0) == at);
    let wte = slice_to_vec(slice_subrange(memory, at, at + sizes[0]));
    let at = at + sizes[0];
    assert(offset(ints(sizes@), 1) == at);
    let wpe = slice_to_vec(slice_subrange(memory, at, at + sizes[1]));
    let at = at + sizes[1];
    assert(offset(ints(sizes@), 2) == at);
    let ln1w = slice_to_vec(slice_subrange(memory, at, at + sizes[2]));
    let at = at + sizes[2];
    assert(offset(ints(sizes@), 3) == at);
    let ln1b = slice_to_vec(slice_subrange(memory, at, at + sizes[3]));
    let at = at + sizes[3];
    assert(offset(ints(sizes@), 4) == at);
    let qkvw = slice_to_vec(slice_subrange(memory, at, at + sizes[4]));
    let at = at + sizes[4];
    assert(offset(ints(sizes@), 5) == at);
    let qkvb = slice_to_vec(slice_subrange(memory, at, at + sizes[5]));
    let at = at + sizes[5];
    assert(offset(ints(sizes@), 6) == at);
    let attprojw = slice_to_vec(slice_subrange(memory, at, at + sizes[6]));
    let at = at + sizes[6];
    assert(offset(ints(sizes@), 7) == at);
    let attprojb = slice_to_vec(slice_subrange(memory, at, at + sizes[7]));
    let at = at + sizes[7];
    assert(offset(ints(sizes@), 8) == at);
    let ln2w = slice_to_vec(slice_subrange(memory, at, at + sizes[8]));
    let at = at + sizes[8];
    assert(offset(ints(sizes@), 9) == at);
    let ln2b = slice_to_vec(slice_subrange(memory, at, at + sizes[9]));
    let at = at + sizes[9];
    assert(offset(ints(sizes@), 10) == at);
    let fcw = slice_to_vec(slice_subrange(memory, at, at + sizes[10]));
    let at = at + sizes[10];
    assert(offset(ints(sizes@), 11) == at);
    let fcb = slice_to_vec(slice_subrange(memory, at, at + sizes[11]));
    let at = at + sizes[11];
    assert(offset(ints(sizes@), 12) == at);
    let fcprojw = slice_to_vec(slice_subrange(memory, at, at + sizes[12]));
    let at = at + sizes[12];
    assert(offset(ints(sizes@), 13) == at);
    let fcprojb = slice_to_vec(slice_subrange(memory, at, at + sizes[13]));
    let at = at + sizes[13];
    assert(offset(ints(sizes@), 14) == at);
    let lnfw = slice_to_vec(slice_subrange(memory, at, at + sizes[14]));
    let at = at + sizes[14];
    assert(offset(ints(sizes@), 15) == at);
    let lnfb = slice_to_vec(slice_subrange(memory, at, at + sizes[15]));
    ParameterTensors {
        wte,
        wpe,
        ln1w,
        ln1b,
        qkvw,
        qkvb,
        attprojw,
        attprojb,
        ln2w,
        ln2b,
        fcw,
        fcb,
        fcprojw,
        fcprojb,
        lnfw,
        lnfb,
    }
}

/// Every tensor is all zeros.
pub open spec fn params_zeroed<T: Scalar>(before: Params<T>, after: Params<T>) -> bool {
    &&& zeroed(before.wte, after.wte)
    &&& zeroed(before.wpe, after.wpe)
    &&& zeroed(before.ln1w, after.ln1w)
    &&& zeroed(before.ln1b, after.ln1b)
    &&& zeroed(before.qkvw, after.qkvw)
    &&& zeroed(before.qkvb, after.qkvb)
    &&& zeroed(before.attprojw, after.attprojw)
    &&& zeroed(before.attprojb, after.attprojb)
    &&& zeroed(before.ln2w, after.ln2w)
    &&& zeroed(before.ln2b, after.ln2b)
    &&& zeroed(before.fcw, after.fcw)
    &&& zeroed(before.fcb, after.fcb)
    &&& zeroed(before.fcprojw, after.fcprojw)
    &&& zeroed(before.fcprojb, after.fcprojb)
    &&& zeroed(before.lnfw, after.lnfw)
    &&& zeroed(before.lnfb, after.lnfb)
}

/// Sets all parameters to zero.
pub fn zero_params<T: Scalar>(p: &mut ParameterTensors<T>)
    ensures
        params_zeroed(old(p)@, final(p)@),
{
    fill_zero(&mut p.wte);
    fill_zero(&mut p.wpe);
    fill_zero(&mut p.ln1w);
    fill_zero(&mut p.ln1b);
    fill_zero(&mut p.qkvw);
    fill_zero(&mut p.qkvb);
    fill_zero(&mut p.attprojw);
    fill_zero(&mut p.attprojb);
    fill_zero(&mut p.ln2w);
    fill_zero(&mut p.ln2b);
    fill_zero(&mut p.fcw);
    fill_zero(&mut p.fcb);
    fill_zero(&mut p.fcprojw);
    fill_zero(&mut p.fcprojb);
    fill_zero(&mut p.lnfw);
    fill_zero(&mut p.lnfb);
}

/// Every tensor is all zeros.
pub open spec fn acts_zeroed<T: Scalar>(before: Acts<T>, after: Acts<T>) -> bool {
    &&& zeroed(before.encoded, after.encoded)
    &&& zeroed(before.ln1, after.ln1)
    &&& zeroed(before.ln1_mean, after.ln1_mean)
    &&& zeroed(before.ln1_rstd, after.ln1_rstd)
    &&& zeroed(before.qkv, after.qkv)
    &&& zeroed(before.atty, after.atty)
    &&& zeroed(before.preatt, after.preatt)
    &&& zeroed(before.att, after.att)
    &&& zeroed(before.attproj, after.attproj)
    &&& zeroed(before.residual2, after.residual2)
    &&& zeroed(before.ln2, after.ln2)
    &&& zeroed(before.ln2_mean, after.ln2_mean)
    &&& zeroed(before.ln2_rstd, after.ln2_rstd)
    &&& zeroed(before.fch, after.fch)
    &&& zeroed(before.fch_gelu, after.fch_gelu)
    &&& zeroed(before.fcproj, after.fcproj)
    &&& zeroed(before.residual3, after.residual3)
    &&& zeroed(before.lnf, after.lnf)
    &&& zeroed(before.lnf_mean, after.lnf_mean)
    &&& zeroed(before.lnf_rstd, after.lnf_rstd)
    &&& zeroed(before.logits, after.logits)
    &&& zeroed(before.probs, after.probs)
    &&& zeroed(before.losses, after.losses)
}

/// Sets all activations to zero.
pub fn zero_acts<T: Scalar>(a: &mut ActivationTensors<T>)
    ensures
        acts_zeroed(old(a)@, final(a)@),
{
    fill_zero(&mut a.encoded);
    fill_zero(&mut a.ln1);
    fill_zero(&mut a.ln1_mean);
    fill_zero(&mut a.ln1_rstd);
    fill_zero(&mut a.qkv);
    fill_zero(&mut a.atty);
    fill_zero(&mut a.preatt);
    fill_zero(&mut a.att);
    fill_zero(&mut a.attproj);
    fill_zero(&mut a.residual2);
    fill_zero(&mut a.ln2);
    fill_zero(&mut a.ln2_mean);
    fill_zero(&mut a.ln2_rstd);
    fill_zero(&mut a.fch);
    fill_zero(&mut a.fch_gelu);
    fill_zero(&mut a.fcproj);
    fill_zero(&mut a.residual3);
    fill_zero(&mut a.lnf);
    fill_zero(&mut a.lnf_mean);
    fill_zero(&mut a.lnf_rstd);
    fill_zero(&mut a.logits);
    fill_zero(&mut a.probs);
    fill_zero(&mut a.losses);
}

/// Every tensor is cut down or filled up with zeros to the size of its counterpart.
pub open spec fn params_resized<T: Scalar>(
    before: Params<T>,
    after: Params<T>,
    sizes: Seq<int>,
) -> bool {
    &&& resized(before.wte, after.wte, sizes[0])
    &&& resized(before.wpe, after.wpe, sizes[1])
    &&& resized(before.ln1w, after.ln1w, sizes[2])
    &&& resized(before.ln1b, after.ln1b, sizes[3])
    &&& resized(before.qkvw, after.qkvw, sizes[4])
    &&& resized(before.qkvb, after.qkvb, sizes[5])
    &&& resized(before.attprojw, after.attprojw, sizes[6])
    &&& resized(before.attprojb, after.attprojb, sizes[7])
    &&& resized(before.ln2w, after.ln2w, sizes[8])
    &&& resized(before.ln2b, after.ln2b, sizes[9])
    &&& resized(before.fcw, after.fcw, sizes[10])
    &&& resized(before.fcb, after.fcb, sizes[11])
    &&& resized(before.fcprojw, after.fcprojw, sizes[12])
    &&& resized(before.fcprojb, after.fcprojb, sizes[13])
    &&& resized(before.lnfw, after.lnfw, sizes[14])
    &&& resized(before.lnfb, after.lnfb, sizes[15])
}

/// Cuts the tensors down or fills them up with zeros to the sizes of those of `like`.
pub fn resize_params<T: Scalar>(p: &mut ParameterTensors<T>, like: &ParameterTensors<T>)
    ensures
        forall|sizes: Seq<int>| #[trigger]
            params_sized(like@, sizes) ==> params_resized(old(p)@, final(p)@, sizes),
{
    resize(&mut p.wte, like.wte.len());
    resize(&mut p.wpe, like.wpe.len());
    resize(&mut p.ln1w, like.ln1w.len());
    resize(&mut p.ln1b, like.ln1b.len());
    resize(&mut p.qkvw, like.qkvw.len());
    resize(&mut p.qkvb, like.qkvb.len());
    resize(&mut p.attprojw, like.attprojw.len());
    resize(&mut p.attprojb, like.attprojb.len());
    resize(&mut p.ln2w, like.ln2w.len());
    resize(&mut p.ln2b, like.ln2b.len());
    resize(&mut p.fcw, like.fcw.len());
    resize(&mut p.fcb, like.fcb.len());
    resize(&mut p.fcprojw, like.fcprojw.len());
    resize(&mut p.fcprojb, like.fcprojb.len());
    resize(&mut p.lnfw, like.lnfw.len());
    resize(&mut p.lnfb, like.lnfb.len());
}

/// The sizes of the activation tensors, in the order in which they are computed and in that in
/// which they are stated.
pub proof fn lemma_acts_fit(b: int, t: int, l: int, nh: int, c: int, v: int)
    requires
        acts_fit(b, t, l, nh, c, v),
    ensures
        ({
            let n = b * t;
            let h = b * nh;
            &&& 0 <= n
            &&& 0 <= h
            &&& 0 <= n * c
            &&& 0 <= n * v
            &&& 0 <= t * t
            &&& 0 <= n * (3 * c)
            &&& 0 <= n * (4 * c)
            &&& 0 <= h * (t * t)
            &&& 0 <= l * b
            &&& 0 <= l * b * nh
            &&& 0 <= l * b * nh * t
            &&& 0 <= l * b * t == l * n
            &&& 0 <= l * b * t * c == l * (n * c)
            &&& 0 <= l * b * t * 3 * c == l * (n * (3 * c))
            &&& 0 <= l * b * t * 4 * c == l * (n * (4 * c))
            &&& 0 <= l * b * nh * t * t == l * (h * (t * t))
            &&& 0 < l ==> {
                &&& h <= usize::MAX
                &&& n <= l * n
                &&& n * c <= l * (n * c)
                &&& n * (3 * c) <= l * (n * (3 * c))
                &&& n * (4 * c) <= l * (n * (4 * c))
                &&& h * (t * t) <= l * (h * (t * t))
            }
            &&& 0 < h ==> t * t <= h * (t * t)
        }),
{
    let n = b * t;
    let h = b * nh;
    lemma_product_grows(b, t);
    lemma_product_grows(b, nh);
    lemma_product_grows(t, t);
    lemma_product_grows(n, c);
    lemma_product_grows(n, 3 * c);
    lemma_product_grows(n, 4 * c);
    lemma_product_grows(h, t * t);
    lemma_product_grows(n, v);
    lemma_product_grows(l, b);
    lemma_product_grows(l, n * c);
    lemma_product_grows(l, n * (3 * c));
    lemma_product_grows(l, n * (4 * c));
    lemma_product_grows(l, h * (t * t));
    lemma_product_grows(l, n);
    lemma_product_grows(l, h);
    lemma_product_grows(l * h, t);
    lemma_mul_is_associative(l, b, t);
    lemma_mul_is_associative(l, n, c);
    lemma_mul_is_associative(l, n, 3);
    lemma_mul_is_associative(n, 3, c);
    lemma_mul_is_associative(l, n * 3, c);
    lemma_mul_is_associative(n, 4, c);
    lemma_mul_is_associative(l, n, 4);
    lemma_mul_is_associative(l, n * 4, c);
    lemma_mul_is_associative(l, b, nh);
    lemma_mul_is_associative(l * h, t, t);
    lemma_mul_is_associative(l, h, t * t);
}

proof fn lemma_product_grows(a: int, x: int)
    requires
        0 <= a,
        0 <= x,
    ensures
        0 <= a * x,
        0 < a ==> x <= a * x,
{
    assert(0 <= a * x && (0 < a ==> x <= a * x)) by (nonlinear_arith)
        requires
            0 <= a,
            0 <= x,
    ;
}

/// Cuts the activation tensors down or fills them up with zeros to their sizes for `b` sequences
/// of `t` tokens.
pub fn resize_acts<T: Scalar>(
    a: &mut ActivationTensors<T>,
    b: usize,
    t: usize,
    l: usize,
    nh: usize,
    c: usize,
    v: usize,
)
    requires
        acts_fit(b as int, t as int, l as int, nh as int, c as int, v as int),
    ensures
        acts_resized(
            old(a)@,
            final(a)@,
            b as int,
            t as int,
            l as int,
            nh as int,
            c as int,
            v as int,
        ),
        acts_sized(final(a)@, b as int, t as int, l as int, nh as int, c as int, v as int),
{
    proof {
        lemma_acts_fit(b as int, t as int, l as int, nh as int, c as int, v as int);
    }
    resize(&mut a.encoded, b * t * c);
    resize(&mut a.ln1, l * b * t * c);
    resize(&mut a.ln1_mean, l * b * t);
    resize(&mut a.ln1_rstd, l * b * t);
    resize(&mut a.qkv, l * b * t * 3 * c);
    resize(&mut a.atty, l * b * t * c);
    resize(&mut a.preatt, l * b * nh * t * t);
    resize(&mut a.att, l * b * nh * t * t);
    resize(&mut a.attproj, l * b * t * c);
    resize(&mut a.residual2, l * b * t * c);
    resize(&mut a.ln2, l * b * t * c);
    resize(&mut a.ln2_mean, l * b * t);
    resize(&mut a.ln2_rstd, l * b * t);
    resize(&mut a.fch, l * b * t * 4 * c);
    resize(&mut a.fch_gelu, l * b * t * 4 * c);
    resize(&mut a.fcproj, l * b * t * c);
    resize(&mut a.residual3, l * b * t * c);
    resize(&mut a.lnf, b * t * c);
    resize(&mut a.lnf_mean, b * t);
    resize(&mut a.lnf_rstd, b * t);
    resize(&mut a.logits, b * t * v);
    resize(&mut a.probs, b * t * v);
    resize(&mut a.losses, b * t);
}

/// Counts the activations.
pub fn count_acts<T>(a: &ActivationTensors<T>) -> (n: usize)
    requires
        a@.encoded.len()
            + a@.ln1.len()
            + a@.ln1_mean.len()
            + a@.ln1_rstd.len()
            + a@.qkv.len()
            + a@.atty.len()
            + a@.preatt.len()
            + a@.att.len()
            + a@.attproj.len()
            + a@.residual2.len()
            + a@.ln2.len()
            + a@.ln2_mean.len()
            + a@.ln2_rstd.len()
            + a@.fch.len()
            + a@.fch_gelu.len()
            + a@.fcproj.len()
            + a@.residual3.len()
            + a@.lnf.len()
            + a@.lnf_mean.len()
            + a@.lnf_rstd.len()
            + a@.logits.len()
            + a@.probs.len()
            + a@.losses.len() <= usize::MAX,
    ensures
        n == a@.encoded.len()
            + a@.ln1.len()
            + a@.ln1_mean.len()
            + a@.ln1_rstd.len()
            + a@.qkv.len()
            + a@.atty.len()
            + a@.preatt.len()
            + a@.att.len()
            + a@.attproj.len()
            + a@.residual2.len()
            + a@.ln2.len()
            + a@.ln2_mean.len()
            + a@.ln2_rstd.len()
            + a@.fch.len()
            + a@.fch_gelu.len()
            + a@.fcproj.len()
            + a@.residual3.len()
            + a@.lnf.len()
            + a@.lnf_mean.len()
            + a@.lnf_rstd.len()
            + a@.logits.len()
            + a@.probs.len()
            + a@.losses.len(),
{
    a.encoded.len()
        + a.ln1.len()
        + a.ln1_mean.len()
        + a.ln1_rstd.len()
        + a.qkv.len()
        + a.atty.len()
        + a.preatt.len()
        + a.att.len()
        + a.attproj.len()
        + a.residual2.len()
        + a.ln2.len()
        + a.ln2_mean.len()
        + a.ln2_rstd.len()
        + a.fch.len()
        + a.fch_gelu.len()
        + a.fcproj.len()
        + a.residual3.len()
        + a.lnf.len()
        + a.lnf_mean.len()
        + a.lnf_rstd.len()
        + a.logits.len()
        + a.probs.len()
        + a.losses.len()
}

} // verus!
