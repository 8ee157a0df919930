//! What a caller can ask of a model before it calls on it.

use vstd::prelude::*;

use crate::backward::can_backward;
use crate::buffer::lemma_row_bound;
use crate::checkpoint::{checked_param_sizes, checked_total};
use crate::crossentropy::targets_in_range;
use crate::encoder::tokens_in_table;
use crate::forward::{
    acts_in_shape, batch_activations, batch_countable, can_forward, computable, params_cover,
};
use crate::generation::{can_generate, room_for, GEN_MAX_LENGTH};
use crate::model::GPT2;
use crate::scalar::Scalar;
use crate::tensors::{
    activation_count, acts_fit, acts_sized, ints, lemma_acts_fit, param_sizes, params_sized,
    ActivationTensors, ParameterTensors,
};
use crate::training::trainable;

verus! {

/// Whether the parameter tensors have the given sizes.
pub fn params_match<T>(p: &ParameterTensors<T>, sizes: &Vec<usize>) -> (r: bool)
    requires
        sizes@.len() == 16,
    ensures
        r == params_sized(p@, ints(sizes@)),
{
    p.wte.len() == sizes[0]
        && p.wpe.len() == sizes[1]
        && p.ln1w.len() == sizes[2]
        && p.ln1b.len() == sizes[3]
        && p.qkvw.len() == sizes[4]
        && p.qkvb.len() == sizes[5]
        && p.attprojw.len() == sizes[6]
        && p.attprojb.len() == sizes[7]
        && p.ln2w.len() == sizes[8]
        && p.ln2b.len() == sizes[9]
        && p.fcw.len() == sizes[10]
        && p.fcb.len() == sizes[11]
        && p.fcprojw.len() == sizes[12]
        && p.fcprojb.len() == sizes[13]
        && p.lnfw.len() == sizes[14]
        && p.lnfb.len() == sizes[15]
}

/// Whether the first `n` tokens are there and belong to a vocabulary of `v`.
pub fn tokens_valid(tokens: &[i32], n: usize, v: usize) -> (r: bool)
    ensures
        r == targets_in_range(tokens@, n as int, v as int),
{
    if tokens.len() < n {
        return false;
    }
    for i in 0..n
        invariant
            n <= tokens.len(),
            forall|j: int| 0 <= j < i ==> 0 <= #[trigger] tokens@[j] < v,
    {
        if tokens[i] < 0 || tokens[i] as usize >= v {
            return false;
        }
    }
    true
}

/// Whether `a` times `b` is no more than `len`.
pub fn fits(a: usize, b: usize, len: usize) -> (r: bool)
    ensures
        r == (a * b <= len),
{
    match a.checked_mul(b) {
        Some(n) => n <= len,
        None => false,
    }
}

/// Whether `a` times `b` times `c` is no more than `len`.
fn fits_square(a: usize, b: usize, c: usize, len: usize) -> (r: bool)
    requires
        0 < a,
    ensures
        r == (a * (b * c) <= len),
{
    match b.checked_mul(c) {
        Some(n) => fits(a, n, len),
        None => {
            assert(b * c <= a * (b * c)) by (nonlinear_arith)
                requires
                    0 < a,
                    0 <= b * c,
            ;
            false
        },
    }
}

/// Whether each of the first `n` tokens has a row of `c` elements in a table of `len` elements.
pub fn tokens_embedded(tokens: &[i32], n: usize, c: usize, len: usize) -> (r: bool)
    ensures
        r == tokens_in_table(tokens@, n as int, c as int, len as int),
{
    if tokens.len() < n {
        return false;
    }
    if c == 0 {
        return true;
    }
    for i in 0..n
        invariant
            n <= tokens.len(),
            0 < c,
            forall|j: int|
                0 <= j < i ==> 0 <= #[trigger] tokens@[j] && tokens@[j] * c + c <= len,
    {
        if tokens[i] < 0 {
            return false;
        }
        proof {
            lemma_row_bound(tokens@[i as int] as int, c as int, c as int, tokens@[i as int] + 1);
        }
        if c > len || !fits(tokens[i] as usize, c, len - c) {
            return false;
        }
    }
    true
}

/// Whether there are parameters for `count` layers of `c` channels and a vocabulary of `v`.
pub fn covers<T>(p: &ParameterTensors<T>, count: usize, c: usize, v: usize) -> (r: bool)
    requires
        0 < count,
        4 * c <= i32::MAX,
    ensures
        r == params_cover(p@, count as int, c as int, v as int),
{
    fits(v, c, p.wte.len()) && fits(count, c, p.ln1w.len()) && fits(count, c, p.ln1b.len())
        && fits_square(count, 3 * c, c, p.qkvw.len()) && fits(count, 3 * c, p.qkvb.len())
        && fits_square(count, c, c, p.attprojw.len()) && fits(count, c, p.attprojb.len())
        && fits(count, c, p.ln2w.len()) && fits(count, c, p.ln2b.len())
        && fits_square(count, 4 * c, c, p.fcw.len()) && fits(count, 4 * c, p.fcb.len())
        && fits_square(count, c, 4 * c, p.fcprojw.len()) && fits(count, c, p.fcprojb.len())
        && c <= p.lnfw.len() && c <= p.lnfb.len()
}

/// The sizes of activation tensors.
pub struct ActSizes {
    pub n: usize,
    pub nc: usize,
    pub nv: usize,
    pub ln: usize,
    pub lnc: usize,
    pub lnc3: usize,
    pub lnc4: usize,
    pub lhtt: usize,
}

/// The sizes are those for `b` sequences of `t` tokens.
pub open spec fn sizes_for(
    s: ActSizes,
    b: int,
    t: int,
    l: int,
    nh: int,
    c: int,
    v: int,
) -> bool {
    &&& s.n == b * t
    &&& s.nc == (b * t) * c
    &&& s.nv == (b * t) * v
    &&& s.ln == l * (b * t)
    &&& s.lnc == l * ((b * t) * c)
    &&& s.lnc3 == l * ((b * t) * (3 * c))
    &&& s.lnc4 == l * ((b * t) * (4 * c))
    &&& s.lhtt == l * ((b * nh) * (t * t))
}

/// The sizes of the activation tensors, or nothing where one of them cannot be counted.
pub fn checked_act_sizes(
    b: usize,
    t: usize,
    l: usize,
    nh: usize,
    c: usize,
    v: usize,
) -> (r: Option<ActSizes>)
    ensures
        match r {
            Some(s) => {
                &&& acts_fit(b as int, t as int, l as int, nh as int, c as int, v as int)
                &&& sizes_for(s, b as int, t as int, l as int, nh as int, c as int, v as int)
            },
            None => !acts_fit(b as int, t as int, l as int, nh as int, c as int, v as int),
        },
{
    let n = match b.checked_mul(t) {
        Some(x) => x,
        None => return None,
    };
    let nc = match n.checked_mul(c) {
        Some(x) => x,
        None => return None,
    };
    let nv = match n.checked_mul(v) {
        Some(x) => x,
        None => return None,
    };
    let lb = match l.checked_mul(b) {
        Some(x) => x,
        None => return None,
    };
    let ln = match lb.checked_mul(t) {
        Some(x) => x,
        None => return None,
    };
    let lnc = match ln.checked_mul(c) {
        Some(x) => x,
        None => return None,
    };
    let ln3 = match ln.checked_mul(3) {
        Some(x) => x,
        None => return None,
    };
    let lnc3 = match ln3.checked_mul(c) {
        Some(x) => x,
        None => return None,
    };
    let ln4 = match ln.checked_mul(4) {
        Some(x) => x,
        None => return None,
    };
    let lnc4 = match ln4.checked_mul(c) {
        Some(x) => x,
        None => return None,
    };
    let lh = match lb.checked_mul(nh) {
        Some(x) => x,
        None => return None,
    };
    let lht = match lh.checked_mul(t) {
        Some(x) => x,
        None => return None,
    };
    let lhtt = match lht.checked_mul(t) {
        Some(x) => x,
        None => return None,
    };
    proof {
        lemma_acts_fit(b as int, t as int, l as int, nh as int, c as int, v as int);
    }
    Some(ActSizes { n, nc, nv, ln, lnc, lnc3, lnc4, lhtt })
}

/// Whether the number of activations can be counted.
fn activations_countable(
    s: &ActSizes,
    Ghost(b): Ghost<int>,
    Ghost(t): Ghost<int>,
    Ghost(l): Ghost<int>,
    Ghost(nh): Ghost<int>,
    Ghost(c): Ghost<int>,
    Ghost(v): Ghost<int>,
) -> (r: bool)
    requires
        sizes_for(*s, b, t, l, nh, c, v),
    ensures
        r == (activation_count(b, t, l, nh, c, v) <= usize::MAX),
{
    let all: u128 = s.nc as u128
        + s.lnc as u128
        + s.ln as u128
        + s.ln as u128
        + s.lnc3 as u128
        + s.lnc as u128
        + s.lhtt as u128
        + s.lhtt as u128
        + s.lnc as u128
        + s.lnc as u128
        + s.lnc as u128
        + s.ln as u128
        + s.ln as u128
        + s.lnc4 as u128
        + s.lnc4 as u128
        + s.lnc as u128
        + s.lnc as u128
        + s.nc as u128
        + s.n as u128
        + s.n as u128
        + s.nv as u128
        + s.nv as u128
        + s.n as u128;
    all <= usize::MAX as u128
}

/// Whether the activation tensors have the given sizes.
fn acts_match<T>(
    a: &ActivationTensors<T>,
    s: &ActSizes,
    Ghost(b): Ghost<int>,
    Ghost(t): Ghost<int>,
    Ghost(l): Ghost<int>,
    Ghost(nh): Ghost<int>,
    Ghost(c): Ghost<int>,
    Ghost(v): Ghost<int>,
) -> (r: bool)
    requires
        sizes_for(*s, b, t, l, nh, c, v),
    ensures
        r == acts_sized(a@, b, t, l, nh, c, v),
{
    a.encoded.len() == s.nc
        && a.ln1.len() == s.lnc
        && a.ln1_mean.len() == s.ln
        && a.ln1_rstd.len() == s.ln
        && a.qkv.len() == s.lnc3
        && a.atty.len() == s.lnc
        && a.preatt.len() == s.lhtt
        && a.att.len() == s.lhtt
        && a.attproj.len() == s.lnc
        && a.residual2.len() == s.lnc
        && a.ln2.len() == s.lnc
        && a.ln2_mean.len() == s.ln
        && a.ln2_rstd.len() == s.ln
        && a.fch.len() == s.lnc4
        && a.fch_gelu.len() == s.lnc4
        && a.fcproj.len() == s.lnc
        && a.residual3.len() == s.lnc
        && a.lnf.len() == s.nc
        && a.lnf_mean.len() == s.n
        && a.lnf_rstd.len() == s.n
        && a.logits.len() == s.nv
        && a.probs.len() == s.nv
        && a.losses.len() == s.n
}

impl<T: Scalar> GPT2<T> {
    /// Whether there are the parameters that the shape of the model asks for, and a batch can be
    /// computed with them.
    pub fn is_computable(&self) -> (r: bool)
        ensures
            r == computable(self@),
    {
        let config = self.config;
        if config.num_layers == 0 || config.num_heads == 0 || config.channels == 0 {
            return false;
        }
        if config.channels > i32::MAX as usize / 4 || config.vocab_size > i32::MAX as usize {
            return false;
        }
        covers(&self.params, config.num_layers, config.channels, config.vocab_size)
    }

    /// The sizes that the shape of the model asks for, if the parameters have exactly these.
    fn exact_sizes(&self) -> (r: Option<Vec<usize>>)
        requires
            4 * self.config.channels <= i32::MAX,
        ensures
            match r {
                Some(sizes) => {
                    &&& ints(sizes@) == param_sizes(self.config)
                    &&& params_sized(self@.params, param_sizes(self.config))
                },
                None => !params_sized(self@.params, param_sizes(self.config)),
            },
    {
        match checked_param_sizes(&self.config) {
            Some(sizes) => {
                assert(ints(sizes@).len() == 16);
                if params_match(&self.params, &sizes) {
                    Some(sizes)
                } else {
                    None
                }
            },
            None => {
                proof {
                    let sizes = param_sizes(self.config);
                    let k = choose|k: int| 0 <= k < 16 && #[trigger] sizes[k] > usize::MAX;
                    if params_sized(self@.params, sizes) {
                        lemma_no_tensor_is_uncountable(&self.params, sizes, k);
                    }
                }
                None
            },
        }
    }

    /// Whether the sizes of the activations for `b` sequences of `t` tokens, and their number, can
    /// be counted.
    fn has_room_for(&self, b: usize, t: usize) -> (r: bool)
        ensures
            r == (batch_countable(self@, b, t) && batch_activations(self@, b, t) <= usize::MAX),
    {
        let config = self.config;
        match checked_act_sizes(
            b,
            t,
            config.num_layers,
            config.num_heads,
            config.channels,
            config.vocab_size,
        ) {
            Some(s) => activations_countable(
                &s,
                Ghost(b as int),
                Ghost(t as int),
                Ghost(config.num_layers as int),
                Ghost(config.num_heads as int),
                Ghost(config.channels as int),
                Ghost(config.vocab_size as int),
            ),
            None => false,
        }
    }

    /// Whether the sizes of activations for the batches that the model states can be counted, and
    /// the given tensors have them.
    fn in_shape(&self, a: &ActivationTensors<T>) -> (r: bool)
        ensures
            r == (batch_countable(self@, self.batch_size, self.seq_len) && acts_in_shape(
                self@,
                a@,
            )),
    {
        let config = self.config;
        match checked_act_sizes(
            self.batch_size,
            self.seq_len,
            config.num_layers,
            config.num_heads,
            config.channels,
            config.vocab_size,
        ) {
            Some(s) => acts_match(
                a,
                &s,
                Ghost(self.batch_size as int),
                Ghost(self.seq_len as int),
                Ghost(config.num_layers as int),
                Ghost(config.num_heads as int),
                Ghost(config.channels as int),
                Ghost(config.vocab_size as int),
            ),
            None => false,
        }
    }

    /// Whether a batch of `b` sequences of `t` tokens can be computed.
    pub fn accepts(
        &self,
        inputs: &[i32],
        targets: Option<&[i32]>,
        b: usize,
        t: usize,
    ) -> (r: bool)
        ensures
            r == can_forward(
                self@,
                inputs@,
                match targets {
                    Some(x) => Some(x@),
                    None => None,
                },
                b,
                t,
            ),
    {
        if !self.is_computable() {
            return false;
        }
        let n = match b.checked_mul(t) {
            Some(n) => n,
            None => return false,
        };
        let c = self.config.channels;
        if n > i32::MAX as usize || (b > 0 && !fits(t, c, self.params.wpe.len())) {
            return false;
        }
        if !tokens_embedded(inputs, n, c, self.params.wte.len()) {
            return false;
        }
        if let Some(x) = targets {
            if !tokens_valid(x, n, self.config.vocab_size) {
                return false;
            }
        }
        if self.acts_memory.is_empty() {
            self.has_room_for(b, t)
        } else {
            self.in_shape(&self.acts)
        }
    }

    /// Whether the gradients of the last batch can be computed.
    pub fn is_ready_for_backward(&self) -> (r: bool)
        ensures
            r == can_backward(self@),
    {
        let (b, t) = (self.batch_size, self.seq_len);
        if !self.is_computable() {
            return false;
        }
        let n = match b.checked_mul(t) {
            Some(n) => n,
            None => return false,
        };
        let c = self.config.channels;
        if n > i32::MAX as usize || (b > 0 && !fits(t, c, self.grads.wpe.len())) {
            return false;
        }
        if !tokens_embedded(&self.inputs, n, c, self.grads.wte.len()) || self.targets.len() < n {
            return false;
        }
        self.in_shape(&self.acts) && covers(
            &self.grads,
            self.config.num_layers,
            c,
            self.config.vocab_size,
        ) && (self.grads_memory.is_empty() || self.in_shape(&self.grads_acts))
    }

    /// Whether the model can be trained.
    pub fn is_trainable(&self) -> (r: bool)
        ensures
            r == trainable(self@),
    {
        if !self.is_computable() {
            return false;
        }
        let sizes = match self.exact_sizes() {
            Some(sizes) => sizes,
            None => return false,
        };
        assert(ints(sizes@).len() == 16);
        if !params_match(&self.grads, &sizes) {
            return false;
        }
        if self.param_sizes.len() != sizes.len() {
            assert(ints(self.param_sizes@).len() != 16);
            return false;
        }
        for k in 0..sizes.len()
            invariant
                sizes@.len() == 16,
                self.param_sizes@.len() == 16,
                ints(sizes@) == param_sizes(self.config),
                forall|j: int| 0 <= j < k ==> #[trigger] self.param_sizes@[j] == sizes@[j],
        {
            if self.param_sizes[k] != sizes[k] {
                assert(ints(self.param_sizes@)[k as int] != ints(sizes@)[k as int]);
                return false;
            }
        }
        assert(self.param_sizes@ =~= sizes@);
        let n = match checked_total(&sizes) {
            Some(n) => n,
            None => return false,
        };
        let p = self.num_parameters;
        p == n && self.params_memory.len() == p && (self.grads_memory.is_empty()
            || self.grads_memory.len() == p) && (self.m_memory.is_empty()
            || self.m_memory.len() == p) && self.m_memory.len() == self.v_memory.len()
            && self.acts_memory.is_empty()
    }

    /// Whether the model can generate text.
    pub fn can_generate(&self) -> (r: bool)
        ensures
            r == can_generate(self@),
    {
        if !self.is_computable() || self.config.vocab_size == 0 || self.params_memory.is_empty()
            || !self.acts_memory.is_empty() {
            return false;
        }
        let c = self.config.channels;
        if !fits(50257, c, self.params.wte.len()) || !fits(63, c, self.params.wpe.len()) {
            return false;
        }
        for n in 1..GEN_MAX_LENGTH
            invariant
                forall|k: usize| 1 <= k < n ==> #[trigger] room_for(self@, k),
        {
            let r = self.has_room_for(1, n);
            assert(r == room_for(self@, n)) by {
                reveal(room_for);
            }
            if !r {
                return false;
            }
        }
        true
    }
}

/// No tensor has more elements than can be counted.
proof fn lemma_no_tensor_is_uncountable<T>(p: &ParameterTensors<T>, sizes: Seq<int>, k: int)
    requires
        sizes.len() == 16,
        params_sized(p@, sizes),
        0 <= k < 16,
    ensures
        sizes[k] <= usize::MAX,
{
    assert(p.wte.len() <= usize::MAX);
    assert(p.wpe.len() <= usize::MAX);
    assert(p.ln1w.len() <= usize::MAX);
    assert(p.ln1b.len() <= usize::MAX);
    assert(p.qkvw.len() <= usize::MAX);
    assert(p.qkvb.len() <= usize::MAX);
    assert(p.attprojw.len() <= usize::MAX);
    assert(p.attprojb.len() <= usize::MAX);
    assert(p.ln2w.len() <= usize::MAX);
    assert(p.ln2b.len() <= usize::MAX);
    assert(p.fcw.len() <= usize::MAX);
    assert(p.fcb.len() <= usize::MAX);
    assert(p.fcprojw.len() <= usize::MAX);
    assert(p.fcprojb.len() <= usize::MAX);
    assert(p.lnfw.len() <= usize::MAX);
    assert(p.lnfb.len() <= usize::MAX);
}

} // verus!
