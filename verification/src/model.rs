//! The model: its state, its allocation and its optimiser.

use vstd::prelude::*;

use crate::buffer::{resized, splice, zeros};
use crate::scalar::{evals, lit, unit, Expr, Scalar, Traced};
use crate::tensors::{
    activation_count, acts_fit, acts_resized, acts_sized, acts_zeroed, count_acts, fill_zero,
    ints, offset, pack, packed, params_sized, params_zeroed, resize_acts, unpack_into, unpacked,
    zero_acts, zero_params, zeroed, ActivationTensors, Acts, GPT2Config, ParameterTensors, Params,
    NUM_PARAMETER_TENSORS,
};

verus! {

/// Why the model refuses to work.
#[derive(Clone, Copy, PartialEq, Eq, Structural, Debug)]
pub enum ModelError {
    /// There are no parameters yet.
    NotInitialized,
    /// The batch has more or longer sequences than there is room for.
    TooLarge,
    /// There is no loss to go back from.
    NoTargets,
}

impl ModelError {
    /// What to tell a user.
    pub fn message(&self) -> (text: &'static str)
        ensures
            text@ == (match *self {
                ModelError::NotInitialized => "Error: model was not initialized properly."@,
                ModelError::TooLarge => "Batch size or sequence length is too large."@,
                ModelError::NoTargets => "Error: must forward with targets before backward"@,
            }),
    {
        match *self {
            ModelError::NotInitialized => "Error: model was not initialized properly.",
            ModelError::TooLarge => "Batch size or sequence length is too large.",
            ModelError::NoTargets => "Error: must forward with targets before backward",
        }
    }
}

/// A model and all that is kept for training it.
pub struct GPT2<T> {
    /// The shape.
    pub config: GPT2Config,
    /// The parameters, tensor by tensor.
    pub params: ParameterTensors<T>,
    /// The sizes of the parameter tensors.
    pub param_sizes: Vec<usize>,
    /// The parameters, one tensor behind the other.
    pub params_memory: Vec<T>,
    /// The number of parameters.
    pub num_parameters: usize,
    /// The gradients of the parameters, tensor by tensor.
    pub grads: ParameterTensors<T>,
    /// The gradients of the parameters, one tensor behind the other.
    pub grads_memory: Vec<T>,
    /// The first moments of the optimiser.
    pub m_memory: Vec<T>,
    /// The second moments of the optimiser.
    pub v_memory: Vec<T>,
    /// The activations.
    pub acts: ActivationTensors<T>,
    /// Storage that, once in use, fixes the size of a batch.
    pub acts_memory: Vec<T>,
    /// The number of activations.
    pub num_activations: usize,
    /// The gradients of the activations.
    pub grads_acts: ActivationTensors<T>,
    /// Storage for the gradients of the activations.
    pub grads_acts_memory: Vec<T>,
    /// The number of sequences that the activations are laid out for.
    pub batch_size: usize,
    /// The length of the sequences that the activations are laid out for.
    pub seq_len: usize,
    /// The tokens of the last batch.
    pub inputs: Vec<i32>,
    /// The targets of the last batch that had any.
    pub targets: Vec<i32>,
    /// The mean loss of the last batch, or minus one where it had no targets.
    pub mean_loss: T,
}

/// The contents of a [`GPT2`].
#[verifier::ext_equal]
pub struct Model<T> {
    pub config: GPT2Config,
    pub params: Params<T>,
    pub param_sizes: Seq<usize>,
    pub params_memory: Seq<T>,
    pub num_parameters: usize,
    pub grads: Params<T>,
    pub grads_memory: Seq<T>,
    pub m_memory: Seq<T>,
    pub v_memory: Seq<T>,
    pub acts: Acts<T>,
    pub acts_memory: Seq<T>,
    pub num_activations: usize,
    pub grads_acts: Acts<T>,
    pub grads_acts_memory: Seq<T>,
    pub batch_size: usize,
    pub seq_len: usize,
    pub inputs: Seq<i32>,
    pub targets: Seq<i32>,
    pub mean_loss: T,
}

impl<T> View for GPT2<T> {
    type V = Model<T>;

    open spec fn view(&self) -> Model<T> {
        Model {
            config: self.config,
            params: self.params@,
            param_sizes: self.param_sizes@,
            params_memory: self.params_memory@,
            num_parameters: self.num_parameters,
            grads: self.grads@,
            grads_memory: self.grads_memory@,
            m_memory: self.m_memory@,
            v_memory: self.v_memory@,
            acts: self.acts@,
            acts_memory: self.acts_memory@,
            num_activations: self.num_activations,
            grads_acts: self.grads_acts@,
            grads_acts_memory: self.grads_acts_memory@,
            batch_size: self.batch_size,
            seq_len: self.seq_len,
            inputs: self.inputs@,
            targets: self.targets@,
            mean_loss: self.mean_loss,
        }
    }
}

/// The formula for minus one, the mean loss where there is none.
pub open spec fn no_loss<T>() -> Expr<T> {
    unit().neg()
}

/// The first moment `m` after a gradient.
pub open spec fn next_m<T>(m: T, grad: T, beta1: T) -> Expr<T> {
    lit(beta1).times(lit(m)).plus(unit().minus(lit(beta1)).times(lit(grad)))
}

/// The second moment `v` after a gradient.
pub open spec fn next_v<T>(v: T, grad: T, beta2: T) -> Expr<T> {
    lit(beta2).times(lit(v)).plus(unit().minus(lit(beta2)).times(lit(grad)).times(lit(grad)))
}

/// The parameter `x` after step `t`, given its new moments.
pub open spec fn next_param<T>(
    x: T,
    m: T,
    v: T,
    learning_rate: T,
    beta1: T,
    beta2: T,
    eps: T,
    weight_decay: T,
    t: usize,
) -> Expr<T> {
    let m_hat = lit(m).over(unit().minus(lit(beta1).powi(t as i32)));
    let v_hat = lit(v).over(unit().minus(lit(beta2).powi(t as i32)));
    lit(x).minus(
        lit(learning_rate).times(
            m_hat.over(v_hat.sqrt().plus(lit(eps))).plus(lit(weight_decay).times(lit(x))),
        ),
    )
}

/// The moments that a step starts from: those there are, or zeros where there are none yet.
pub open spec fn moments_start<T: Scalar>(model: Model<T>, m0: Seq<T>, v0: Seq<T>) -> bool {
    if model.m_memory.len() == 0 {
        &&& resized(Seq::empty(), m0, model.num_parameters as int)
        &&& resized(Seq::empty(), v0, model.num_parameters as int)
    } else {
        &&& m0 == model.m_memory
        &&& v0 == model.v_memory
    }
}

/// The first `n` parameters and moments have been stepped from `x0`, `m0` and `v0`. The others
/// are as they were.
pub open spec fn stepped<T: Scalar>(
    x0: Seq<T>,
    x: Seq<T>,
    m0: Seq<T>,
    m: Seq<T>,
    v0: Seq<T>,
    v: Seq<T>,
    grads: Seq<T>,
    n: int,
    learning_rate: T,
    beta1: T,
    beta2: T,
    eps: T,
    weight_decay: T,
    t: usize,
) -> bool {
    &&& x.len() == x0.len()
    &&& m.len() == m0.len()
    &&& v.len() == v0.len()
    &&& forall|i: int|
        0 <= i < m.len() ==> if i < n {
            evals(next_m(m0[i], grads[i], beta1), #[trigger] m[i])
        } else {
            m[i] == m0[i]
        }
    &&& forall|i: int|
        0 <= i < v.len() ==> if i < n {
            evals(next_v(v0[i], grads[i], beta2), #[trigger] v[i])
        } else {
            v[i] == v0[i]
        }
    &&& forall|i: int|
        0 <= i < x.len() ==> if i < n {
            evals(
                next_param(
                    x0[i],
                    m[i],
                    v[i],
                    learning_rate,
                    beta1,
                    beta2,
                    eps,
                    weight_decay,
                    t,
                ),
                #[trigger] x[i],
            )
        } else {
            x[i] == x0[i]
        }
}

/// The parameter tensors can be taken out of the parameter memory.
pub open spec fn can_unpack<T>(model: Model<T>) -> bool {
    &&& model.param_sizes.len() >= 16
    &&& params_sized(model.params, ints(model.param_sizes))
    &&& offset(ints(model.param_sizes), 16) <= model.params_memory.len()
}

impl<T: Scalar> GPT2<T> {
    /// A model without shape or parameters.
    pub fn new() -> (model: GPT2<T>)
        ensures
            model.config == (GPT2Config {
                max_seq_len: 0,
                vocab_size: 0,
                num_layers: 0,
                num_heads: 0,
                channels: 0,
            }),
            packed(model.params@) == Seq::<T>::empty(),
            packed(model.grads@) == Seq::<T>::empty(),
            acts_sized(model.acts@, 0, 0, 0, 0, 0, 0),
            acts_sized(model.grads_acts@, 0, 0, 0, 0, 0, 0),
            model.param_sizes@ == Seq::new(16, |k: int| 0usize),
            model.params_memory@.len() == 0,
            model.num_parameters == 0,
            model.grads_memory@.len() == 0,
            model.m_memory@.len() == 0,
            model.v_memory@.len() == 0,
            model.acts_memory@.len() == 0,
            model.num_activations == 0,
            model.grads_acts_memory@.len() == 0,
            model.batch_size == 0,
            model.seq_len == 0,
            model.inputs@.len() == 0,
            model.targets@.len() == 0,
            evals(no_loss(), model.mean_loss),
    {
        let params = ParameterTensors::empty();
        let grads = ParameterTensors::empty();
        proof {
            reveal_with_fuel(crate::tensors::flat, 17);
            assert(packed(params@) =~= Seq::<T>::empty());
            assert(packed(grads@) =~= Seq::<T>::empty());
        }
        let param_sizes: Vec<usize> = vec![0; NUM_PARAMETER_TENSORS];
        assert(param_sizes@ =~= Seq::new(16, |k: int| 0usize));
        GPT2 {
            config: GPT2Config {
                max_seq_len: 0,
                vocab_size: 0,
                num_layers: 0,
                num_heads: 0,
                channels: 0,
            },
            params,
            param_sizes,
            params_memory: Vec::new(),
            num_parameters: 0,
            grads,
            grads_memory: Vec::new(),
            m_memory: Vec::new(),
            v_memory: Vec::new(),
            acts: ActivationTensors::empty(),
            acts_memory: Vec::new(),
            num_activations: 0,
            grads_acts: ActivationTensors::empty(),
            grads_acts_memory: Vec::new(),
            batch_size: 0,
            seq_len: 0,
            inputs: Vec::new(),
            targets: Vec::new(),
            mean_loss: Traced::one().neg().v,
        }
    }

    /// Makes room for the activations of `b` sequences of `t` tokens.
    pub fn allocate_activation_tensors(
        &mut self,
        b: usize,
        t: usize,
        l: usize,
        nh: usize,
        c: usize,
        v: usize,
    )
        requires
            acts_fit(b as int, t as int, l as int, nh as int, c as int, v as int),
            activation_count(b as int, t as int, l as int, nh as int, c as int, v as int)
                <= usize::MAX,
        ensures
            acts_resized(
                old(self)@.acts,
                final(self)@.acts,
                b as int,
                t as int,
                l as int,
                nh as int,
                c as int,
                v as int,
            ),
            final(self)@.num_activations == activation_count(
                b as int,
                t as int,
                l as int,
                nh as int,
                c as int,
                v as int,
            ),
            final(self)@ == (Model {
                acts: final(self)@.acts,
                num_activations: final(self)@.num_activations,
                ..old(self)@
            }),
    {
        resize_acts(&mut self.acts, b, t, l, nh, c, v);
        self.num_activations = count_acts(&self.acts);
    }

    /// Makes room for the gradients of the activations of `b` sequences of `t` tokens.
    pub fn allocate_grad_activation_tensors(
        &mut self,
        b: usize,
        t: usize,
        l: usize,
        nh: usize,
        c: usize,
        v: usize,
    )
        requires
            acts_fit(b as int, t as int, l as int, nh as int, c as int, v as int),
        ensures
            acts_resized(
                old(self)@.grads_acts,
                final(self)@.grads_acts,
                b as int,
                t as int,
                l as int,
                nh as int,
                c as int,
                v as int,
            ),
            final(self)@ == (Model { grads_acts: final(self)@.grads_acts, ..old(self)@ }),
    {
        resize_acts(&mut self.grads_acts, b, t, l, nh, c, v);
    }

    /// Sets all gradients to zero.
    pub fn zero_grad(&mut self)
        ensures
            zeroed(old(self)@.grads_memory, final(self)@.grads_memory),
            params_zeroed(old(self)@.grads, final(self)@.grads),
            acts_zeroed(old(self)@.grads_acts, final(self)@.grads_acts),
            final(self)@ == (Model {
                grads_memory: final(self)@.grads_memory,
                grads: final(self)@.grads,
                grads_acts: final(self)@.grads_acts,
                ..old(self)@
            }),
    {
        fill_zero(&mut self.grads_memory);
        zero_params(&mut self.grads);
        zero_acts(&mut self.grads_acts);
    }

    /// Copies the gradients of the parameters to memory, in the order of the parameters.
    pub fn update_grads_memory(&mut self)
        requires
            old(self)@.grads_memory.len() == old(self)@.num_parameters,
            packed(old(self)@.grads).len() <= old(self)@.grads_memory.len(),
        ensures
            final(self)@ == (Model {
                grads_memory: splice(old(self)@.grads_memory, 0, packed(old(self)@.grads)),
                ..old(self)@
            }),
    {
        pack(self.grads_memory.as_mut_slice(), &self.grads);
    }

    /// Copies the parameter tensors out of the parameter memory.
    pub fn update_param_slices(&mut self)
        requires
            can_unpack(old(self)@),
        ensures
            final(self)@ == (Model {
                params: unpacked(old(self)@.params_memory, ints(old(self)@.param_sizes)),
                ..old(self)@
            }),
    {
        unpack_into(&mut self.params, self.params_memory.as_slice(), &self.param_sizes);
    }

    /// Takes step `t` of the AdamW optimiser.
    pub fn update(
        &mut self,
        learning_rate: T,
        beta1: T,
        beta2: T,
        eps: T,
        weight_decay: T,
        t: usize,
    )
        requires
            can_unpack(old(self)@),
            old(self)@.num_parameters <= old(self)@.params_memory.len(),
            old(self)@.num_parameters <= old(self)@.grads_memory.len(),
            old(self)@.m_memory.len() == 0 || (old(self)@.num_parameters
                <= old(self)@.m_memory.len() && old(self)@.num_parameters
                <= old(self)@.v_memory.len()),
        ensures
            exists|m0: Seq<T>, v0: Seq<T>| #[trigger]
                moments_start(old(self)@, m0, v0) && stepped(
                    old(self)@.params_memory,
                    final(self)@.params_memory,
                    m0,
                    final(self)@.m_memory,
                    v0,
                    final(self)@.v_memory,
                    old(self)@.grads_memory,
                    old(self)@.num_parameters as int,
                    learning_rate,
                    beta1,
                    beta2,
                    eps,
                    weight_decay,
                    t,
                ),
            final(self)@ == (Model {
                params: unpacked(final(self)@.params_memory, ints(old(self)@.param_sizes)),
                params_memory: final(self)@.params_memory,
                m_memory: final(self)@.m_memory,
                v_memory: final(self)@.v_memory,
                ..old(self)@
            }),
    {
        if self.m_memory.is_empty() {
            self.m_memory = zeros(self.num_parameters);
            self.v_memory = zeros(self.num_parameters);
        }
        let ghost start = self@;
        proof {
            assert(moments_start(old(self)@, start.m_memory, start.v_memory));
        }
        let one = Traced::<T>::one();
        let lr = Traced::quote(learning_rate);
        let b1 = Traced::quote(beta1);
        let b2 = Traced::quote(beta2);
        let e = Traced::quote(eps);
        let wd = Traced::quote(weight_decay);
        let n = self.num_parameters;
        for i in 0..n
            invariant
                n <= start.params_memory.len(),
                n <= start.grads_memory.len(),
                n <= start.m_memory.len(),
                n <= start.v_memory.len(),
                one.ok(),
                one.e@ == unit::<T>(),
                lr.ok(),
                lr.e@ == lit(learning_rate),
                b1.ok(),
                b1.e@ == lit(beta1),
                b2.ok(),
                b2.e@ == lit(beta2),
                e.ok(),
                e.e@ == lit(eps),
                wd.ok(),
                wd.e@ == lit(weight_decay),
                stepped(
                    start.params_memory,
                    self@.params_memory,
                    start.m_memory,
                    self@.m_memory,
                    start.v_memory,
                    self@.v_memory,
                    start.grads_memory,
                    i as int,
                    learning_rate,
                    beta1,
                    beta2,
                    eps,
                    weight_decay,
                    t,
                ),
                self@ == (Model {
                    params_memory: self@.params_memory,
                    m_memory: self@.m_memory,
                    v_memory: self@.v_memory,
                    ..start
                }),
        {
            let param = Traced::quote(self.params_memory[i]);
            let grad = Traced::quote(self.grads_memory[i]);
            let m0 = Traced::quote(self.m_memory[i]);
            let v0 = Traced::quote(self.v_memory[i]);
            let m1 = b1.times(&m0).plus(&one.minus(&b1).times(&grad));
            let v1 = b2.times(&v0).plus(&one.minus(&b2).times(&grad).times(&grad));
            let m = Traced::quote(m1.v);
            let v = Traced::quote(v1.v);
            let m_hat = m.over(&one.minus(&b1.powi(t as i32)));
            let v_hat = v.over(&one.minus(&b2.powi(t as i32)));
            let step = m_hat.over(&v_hat.sqrt().plus(&e)).plus(&wd.times(&param));
            self.params_memory[i] = param.minus(&lr.times(&step)).v;
            self.m_memory[i] = m.v;
            self.v_memory[i] = v.v;
        }
        self.update_param_slices();
    }
}

} // verus!
