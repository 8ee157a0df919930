use gpt2_train::checkpoint::{countable, gpt2_build_from_checkpoint, read_header, CheckpointError};
use gpt2_train::cli::{Config, ConfigError};
use gpt2_train::generation::{generate, GPT2_EOT};
use gpt2_train::model::{ModelError, GPT2};
use gpt2_train::sampling::random_f32;
use gpt2_train::scalar::{Scalar, Transpose};
use gpt2_train::tensors::{pack, unpack, GPT2Config};
use gpt2_train::training::{apply_step, compute_step, train_step};

#[derive(Clone, Copy, Debug, PartialEq)]
struct F(f32);

impl Scalar for F {
    fn zero() -> F {
        F(0.0)
    }
    fn one() -> F {
        F(1.0)
    }
    fn decimal(mantissa: u64, places: u32) -> F {
        F(format!("{}e-{}", mantissa, places).parse().unwrap())
    }
    fn from_usize(n: usize) -> F {
        F(n as f32)
    }
    fn pi() -> F {
        F(std::f32::consts::PI)
    }
    fn neg_infinity() -> F {
        F(f32::NEG_INFINITY)
    }
    fn max_value() -> F {
        F(f32::MAX)
    }
    fn from_bits(bits: u32) -> F {
        F(f32::from_bits(bits))
    }
    fn parse(text: &str) -> Option<F> {
        text.parse().ok().map(F)
    }
    fn add(self, other: F) -> F {
        F(self.0 + other.0)
    }
    fn sub(self, other: F) -> F {
        F(self.0 - other.0)
    }
    fn mul(self, other: F) -> F {
        F(self.0 * other.0)
    }
    fn div(self, other: F) -> F {
        F(self.0 / other.0)
    }
    fn max(self, other: F) -> F {
        F(self.0.max(other.0))
    }
    fn min(self, other: F) -> F {
        F(self.0.min(other.0))
    }
    fn neg(self) -> F {
        F(-self.0)
    }
    fn sqrt(self) -> F {
        F(self.0.sqrt())
    }
    fn exp(self) -> F {
        F(self.0.exp())
    }
    fn ln(self) -> F {
        F(self.0.ln())
    }
    fn tanh(self) -> F {
        F(self.0.tanh())
    }
    fn cosh(self) -> F {
        F(self.0.cosh())
    }
    fn powi(self, n: i32) -> F {
        F(self.0.powi(n))
    }
    fn gt(self, other: F) -> bool {
        self.0 > other.0
    }
    fn lt(self, other: F) -> bool {
        self.0 < other.0
    }
    fn eq(self, other: F) -> bool {
        self.0 == other.0
    }
    fn gemm(
        trans_a: Transpose,
        trans_b: Transpose,
        m: i32,
        n: i32,
        k: i32,
        a: &[F],
        lda: i32,
        b: &[F],
        ldb: i32,
    ) -> Vec<F> {
        let (m, n, k) = (m as usize, n as usize, k as usize);
        let (lda, ldb) = (lda as usize, ldb as usize);
        let mut out = Vec::new();
        for i in 0..m {
            for j in 0..n {
                let mut sum = 0.0;
                for l in 0..k {
                    let x = match trans_a {
                        Transpose::Plain => a[i * lda + l].0,
                        Transpose::Ordinary => a[l * lda + i].0,
                    };
                    let y = match trans_b {
                        Transpose::Plain => b[l * ldb + j].0,
                        Transpose::Ordinary => b[j * ldb + l].0,
                    };
                    sum += x * y;
                }
                out.push(F(sum));
            }
        }
        out
    }
}

fn fs(x: &[f32]) -> Vec<F> {
    x.iter().map(|&v| F(v)).collect()
}

fn raw(x: &[F]) -> Vec<f32> {
    x.iter().map(|v| v.0).collect()
}


fn close(x: f32, y: f32, eps: f32) -> bool {
    (x - y).abs() <= eps * (1.0 + x.abs().max(y.abs()))
}

fn sizes(max_t: usize, v: usize, l: usize, c: usize) -> Vec<usize> {
    vec![
        v * c,
        max_t * c,
        l * c,
        l * c,
        l * 3 * c * c,
        l * 3 * c,
        l * c * c,
        l * c,
        l * c,
        l * c,
        l * 4 * c * c,
        l * 4 * c,
        l * c * 4 * c,
        l * c,
        c,
        c,
    ]
}

fn checkpoint(header: &[i32], params: &[f32]) -> Vec<u8> {
    let mut bytes = Vec::new();
    for i in 0..256 {
        let x = if i < header.len() { header[i] } else { 0 };
        bytes.extend_from_slice(&x.to_le_bytes());
    }
    for x in params {
        bytes.extend_from_slice(&x.to_le_bytes());
    }
    bytes
}

fn params(n: usize, seed: u64) -> Vec<f32> {
    let mut state = seed;
    (0..n)
        .map(|_| {
            let x: F = random_f32(&mut state);
            x.0 - 0.5
        })
        .collect()
}

const MAX_T: usize = 4;
const V: usize = 7;
const L: usize = 2;
const NH: usize = 2;
const C: usize = 4;

fn loaded(values: &[f32]) -> GPT2<F> {
    let header = [20240326, 1, MAX_T as i32, V as i32, L as i32, NH as i32, C as i32];
    let mut model = GPT2::<F>::new();
    gpt2_build_from_checkpoint(&mut model, &checkpoint(&header, values)).unwrap();
    model
}

fn count() -> usize {
    sizes(MAX_T, V, L, C).iter().sum()
}

#[test]
fn new_model_is_empty() {
    let model = GPT2::<F>::new();
    assert_eq!(model.mean_loss, F(-1.0));
    assert_eq!(model.param_sizes, vec![0; 16]);
    assert_eq!(model.num_parameters, 0);
    assert!(model.params_memory.is_empty());
    assert!(model.params.wte.is_empty());
    assert!(model.acts.encoded.is_empty());
    assert_eq!(model.config.channels, 0);
}

#[test]
fn checkpoint_is_loaded() {
    let values = params(count(), 3);
    let model = loaded(&values);
    assert_eq!(model.config.max_seq_len, MAX_T);
    assert_eq!(model.config.vocab_size, V);
    assert_eq!(model.config.num_layers, L);
    assert_eq!(model.config.num_heads, NH);
    assert_eq!(model.config.channels, C);
    assert_eq!(model.param_sizes, sizes(MAX_T, V, L, C));
    assert_eq!(model.num_parameters, count());
    assert_eq!(raw(&model.params_memory), values);
    assert_eq!(raw(&model.params.wte), values[..V * C].to_vec());
    assert_eq!(raw(&model.params.wpe), values[V * C..V * C + MAX_T * C].to_vec());
    assert_eq!(raw(&model.params.lnfb), values[count() - C..].to_vec());
    assert_eq!(model.grads.qkvw.len(), L * 3 * C * C);
    assert!(model.grads.qkvw.iter().all(|x| x.0 == 0.0));
    assert_eq!(model.mean_loss, F(-1.0));
}

#[test]
fn tensors_go_to_memory_and_back() {
    let values = params(count(), 4);
    let model = loaded(&values);
    let mut memory = fs(&vec![0.0; count()]);
    pack(&mut memory, &model.params);
    assert_eq!(raw(&memory), values);
    let again = unpack(&memory, &model.param_sizes);
    assert_eq!(again.fcprojw, model.params.fcprojw);
    assert_eq!(again.wte, model.params.wte);
}

#[test]
fn checkpoint_errors() {
    let mut model = GPT2::<F>::new();
    let good = [20240326, 1, 4, 7, 2, 2, 4];
    assert_eq!(
        gpt2_build_from_checkpoint(&mut model, &checkpoint(&good, &[])[..1023]),
        Err(CheckpointError::UnexpectedEof)
    );
    assert_eq!(
        gpt2_build_from_checkpoint(&mut model, &checkpoint(&[20240325, 1], &[])),
        Err(CheckpointError::BadMagic)
    );
    assert_eq!(
        gpt2_build_from_checkpoint(&mut model, &checkpoint(&[20240326, 2], &[])),
        Err(CheckpointError::BadVersion)
    );
    assert_eq!(model.config.channels, 0);
    assert_eq!(CheckpointError::UnexpectedEof.message(), "failed to fill whole buffer");
    assert_eq!(CheckpointError::BadMagic.message(), "Bad magic model file");
    assert_eq!(CheckpointError::BadVersion.message(), "Bad version in model file");
    // The parameters stop short: those there are have been read.
    let mut bytes = checkpoint(&good, &[1.5, -2.5]);
    bytes.push(0);
    assert_eq!(
        gpt2_build_from_checkpoint(&mut model, &bytes),
        Err(CheckpointError::UnexpectedEof)
    );
    assert_eq!(model.config.channels, 4);
    assert_eq!(model.num_parameters, count());
    assert_eq!(raw(&model.params_memory[..3]), vec![1.5, -2.5, 0.0]);
    assert!(model.params.wte.is_empty());
}

#[test]
fn header_numbers_have_a_sign() {
    let config = read_header(&checkpoint(&[20240326, 1, 1, 2, 3, 4, 5], &[])).unwrap();
    assert_eq!(config.max_seq_len, 1);
    assert_eq!(config.num_heads, 4);
    assert!(countable(&config));
    let config = read_header(&checkpoint(&[20240326, 1, 1, 2, 3, 4, -5], &[])).unwrap();
    assert_eq!(config.channels, -5i32 as usize);
    assert!(!countable(&config));
}

#[test]
fn sizes_that_cannot_be_counted() {
    let config = GPT2Config {
        max_seq_len: 1024,
        vocab_size: 50257,
        num_layers: 12,
        num_heads: 12,
        channels: 768,
    };
    assert!(countable(&config));
    assert!(!countable(&GPT2Config { vocab_size: usize::MAX, ..config }));
    assert!(!countable(&GPT2Config { num_layers: 0, channels: usize::MAX / 3, ..config }));
}

#[test]
fn forward_needs_parameters() {
    let mut model = GPT2::<F>::new();
    assert_eq!(model.forward(&[0, 1], None, 1, 2), Err(ModelError::NotInitialized));
    assert_eq!(model.batch_size, 1);
    assert_eq!(model.seq_len, 2);
    assert_eq!(
        ModelError::NotInitialized.message(),
        "Error: model was not initialized properly."
    );
}

#[test]
fn forward_refuses_more_than_there_is_room_for() {
    let mut model = loaded(&params(count(), 5));
    model.forward(&[1, 2], None, 1, 2).unwrap();
    model.acts_memory.push(F(0.0));
    assert_eq!(model.forward(&[1, 2, 3], None, 1, 3), Err(ModelError::TooLarge));
    assert_eq!(model.forward(&[1, 2, 3, 4], None, 2, 2), Err(ModelError::TooLarge));
    assert_eq!(
        ModelError::TooLarge.message(),
        "Batch size or sequence length is too large."
    );
    // A smaller batch is computed within the room there is.
    let whole = raw(&model.acts.probs[..V]);
    model.forward(&[1], None, 1, 1).unwrap();
    assert_eq!(raw(&model.acts.probs[..V]), whole);
    assert_eq!(model.acts.probs.len(), 2 * V);
}

#[test]
fn backward_needs_targets() {
    let mut model = loaded(&params(count(), 6));
    assert_eq!(model.backward(), Err(ModelError::NoTargets));
    model.forward(&[1, 2], None, 1, 2).unwrap();
    assert_eq!(model.mean_loss, F(-1.0));
    assert_eq!(model.backward(), Err(ModelError::NoTargets));
    // Targets of an earlier batch do not help.
    model.forward(&[1, 2], Some(&[2, 3]), 1, 2).unwrap();
    assert_eq!(model.backward(), Ok(()));
    let wte = raw(&model.grads.wte);
    model.forward(&[1, 2], None, 1, 2).unwrap();
    assert_eq!(model.targets, vec![2, 3]);
    assert_eq!(model.backward(), Err(ModelError::NoTargets));
    assert_eq!(raw(&model.grads.wte), wte);
    assert_eq!(
        ModelError::NoTargets.message(),
        "Error: must forward with targets before backward"
    );
}

#[test]
fn forward_keeps_the_batch_and_its_loss() {
    let mut model = loaded(&params(count(), 7));
    model.forward(&[1, 2, 3, 4], Some(&[2, 3, 4, 5]), 2, 2).unwrap();
    assert_eq!(model.inputs, vec![1, 2, 3, 4]);
    assert_eq!(model.targets, vec![2, 3, 4, 5]);
    let sum: f32 = model.acts.losses.iter().fold(0.0, |s, x| s + x.0);
    assert_eq!(model.mean_loss.0, sum / 4.0);
    for r in 0..4 {
        let total: f32 = raw(&model.acts.probs[r * V..(r + 1) * V]).iter().sum();
        assert!(close(total, 1.0, 1e-5));
        let target = model.targets[r] as usize;
        assert_eq!(model.acts.losses[r].0, -model.acts.probs[r * V + target].0.ln());
    }
    // A batch without targets leaves the targets of the one before.
    model.forward(&[5, 6], None, 1, 2).unwrap();
    assert_eq!(model.inputs, vec![5, 6]);
    assert_eq!(model.targets, vec![2, 3, 4, 5]);
    let n = model.acts.encoded.len();
    assert_eq!(n, 2 * C);
    assert_eq!(model.acts.att.len(), L * NH * 4);
    assert_eq!(model.grads_acts.fch.len(), L * 2 * 4 * C);
}

#[test]
fn later_tokens_do_not_change_earlier_probabilities() {
    let mut model = loaded(&params(count(), 8));
    model.forward(&[1, 2, 3], None, 1, 3).unwrap();
    let one = raw(&model.acts.probs[..2 * V]);
    model.forward(&[1, 2, 6], None, 1, 3).unwrap();
    assert_eq!(raw(&model.acts.probs[..2 * V]), one);
}

#[test]
fn sequences_of_a_batch_do_not_see_each_other() {
    let mut model = loaded(&params(count(), 16));
    model.forward(&[1, 2, 3, 4, 5, 6], None, 2, 3).unwrap();
    let one = raw(&model.acts.probs);
    model.forward(&[1, 2, 0, 4, 1, 6], None, 2, 3).unwrap();
    let two = raw(&model.acts.probs);
    // The first two places of the first sequence, and the first place of the second one.
    assert_eq!(one[..2 * V], two[..2 * V]);
    assert_eq!(one[3 * V..4 * V], two[3 * V..4 * V]);
    assert_ne!(one[4 * V..5 * V], two[4 * V..5 * V]);
    // The first sequence alone gives the same.
    model.forward(&[1, 2, 3], None, 1, 3).unwrap();
    for i in 0..3 * V {
        assert!(close(model.acts.probs[i].0, one[i], 1e-6));
    }
}

#[test]
fn longer_tensors_are_accepted() {
    let values = params(count(), 17);
    let mut model = loaded(&values);
    model.forward(&[1, 2], Some(&[2, 3]), 1, 2).unwrap();
    let loss = model.mean_loss;
    let mut longer = loaded(&values);
    longer.params.wte.extend(fs(&[0.25; C]));
    longer.params.lnfw.push(F(3.0));
    longer.params.fcb.push(F(3.0));
    longer.grads.wte.extend(fs(&[0.5; C]));
    longer.grads.wpe.push(F(0.75));
    assert!(longer.is_computable());
    // There is a row for one more token than the vocabulary has.
    assert!(longer.accepts(&[1, V as i32], Some(&[2, 3]), 1, 2));
    assert!(!longer.accepts(&[1, V as i32 + 1], Some(&[2, 3]), 1, 2));
    longer.forward(&[1, 2], Some(&[2, 3]), 1, 2).unwrap();
    assert_eq!(longer.mean_loss, loss);
    longer.forward(&[1, V as i32], Some(&[2, 3]), 1, 2).unwrap();
    assert!(longer.is_ready_for_backward());
    longer.backward().unwrap();
    assert_ne!(raw(&longer.grads.wte[V * C..]), vec![0.5; C]);
    assert_eq!(longer.grads.wpe[MAX_T * C], F(0.75));
}

fn loss_of(values: &[f32], inputs: &[i32], targets: &[i32], b: usize, t: usize) -> f32 {
    let mut model = loaded(values);
    model.forward(inputs, Some(targets), b, t).unwrap();
    model.mean_loss.0
}

#[test]
fn gradients_match_differences() {
    let values = params(count(), 9);
    let inputs = [1, 2, 3, 0, 5, 1];
    let targets = [2, 3, 4, 5, 1, 6];
    let mut model = loaded(&values);
    model.forward(&inputs, Some(&targets), 2, 3).unwrap();
    model.zero_grad();
    model.backward().unwrap();
    model.update_grads_memory();
    assert_eq!(model.grads_memory.len(), count());
    let h = 1e-2f32;
    for i in 0..count() {
        let mut hi = values.clone();
        let mut lo = values.clone();
        hi[i] += h;
        lo[i] -= h;
        let slope = (loss_of(&hi, &inputs, &targets, 2, 3)
            - loss_of(&lo, &inputs, &targets, 2, 3))
            / (2.0 * h);
        assert!(close(model.grads_memory[i].0, slope, 2e-2));
    }
    assert_eq!(model.grads_acts.losses[0].0, 1.0 / 6.0);
}

#[test]
fn weight_gradients_are_overwritten() {
    let values = params(count(), 18);
    let run = |x: f32| {
        let mut model = loaded(&values);
        model.forward(&[1, 2, 3, 0], Some(&[2, 3, 4, 5]), 2, 2).unwrap();
        let all = fs(&vec![x; L * 4 * C * C]);
        model.grads.wte = all[..V * C].to_vec();
        model.grads.qkvw = all[..L * 3 * C * C].to_vec();
        model.grads.attprojw = all[..L * C * C].to_vec();
        model.grads.fcw = all.clone();
        model.grads.fcprojw = all.clone();
        model.backward().unwrap();
        model
    };
    let one = run(0.0);
    let two = run(5.0);
    assert_eq!(one.grads.wte, two.grads.wte);
    assert_eq!(one.grads.qkvw, two.grads.qkvw);
    assert_eq!(one.grads.attprojw, two.grads.attprojw);
    assert_eq!(one.grads.fcw, two.grads.fcw);
    assert_eq!(one.grads.fcprojw, two.grads.fcprojw);
    assert_eq!(one.grads.qkvb, two.grads.qkvb);
    assert_eq!(one.grads.wpe, two.grads.wpe);
    assert_eq!(one.grads_acts.encoded, two.grads_acts.encoded);
    assert_eq!(one.grads_acts.preatt, two.grads_acts.preatt);
}

#[test]
fn logits_have_their_gradient() {
    let mut model = loaded(&params(count(), 19));
    let targets = [2, 3, 4, 5, 1, 6];
    for _ in 0..2 {
        model.forward(&[1, 2, 3, 0, 5, 1], Some(&targets), 2, 3).unwrap();
        model.zero_grad();
        model.backward().unwrap();
        for r in 0..6 {
            assert_eq!(model.grads_acts.losses[r].0, 1.0 / 6.0);
            for i in 0..V {
                let indicator = if i as i32 == targets[r] { 1.0 } else { 0.0 };
                assert_eq!(
                    model.grads_acts.logits[r * V + i].0,
                    0.0 + (model.acts.probs[r * V + i].0 - indicator) * (1.0 / 6.0)
                );
            }
        }
    }
}

#[test]
fn gradients_are_set_to_zero() {
    let mut model = loaded(&params(count(), 10));
    model.forward(&[1, 2], Some(&[2, 3]), 1, 2).unwrap();
    model.backward().unwrap();
    model.update_grads_memory();
    assert!(model.grads_memory.iter().any(|x| x.0 != 0.0));
    model.zero_grad();
    assert!(model.grads_memory.iter().all(|x| x.0 == 0.0));
    assert!(model.grads.wte.iter().all(|x| x.0 == 0.0));
    assert!(model.grads_acts.logits.iter().all(|x| x.0 == 0.0));
}

#[test]
fn optimiser_takes_a_step() {
    let values = params(count(), 11);
    let mut model = loaded(&values);
    model.grads_memory = fs(&vec![0.5; count()]);
    model.update(F(0.1), F(0.9), F(0.999), F(1e-8), F(0.01), 1);
    for i in 0..count() {
        let m = 0.9f32 * 0.0 + (1.0 - 0.9) * 0.5;
        let v = 0.999f32 * 0.0 + (1.0 - 0.999) * 0.5 * 0.5;
        let m_hat = m / (1.0 - 0.9f32.powi(1));
        let v_hat = v / (1.0 - 0.999f32.powi(1));
        let x = values[i] - 0.1 * (m_hat / (v_hat.sqrt() + 1e-8) + 0.01 * values[i]);
        assert_eq!(model.params_memory[i].0, x);
        assert_eq!(model.m_memory[i].0, m);
        assert_eq!(model.v_memory[i].0, v);
    }
    assert_eq!(raw(&model.params.wte), raw(&model.params_memory[..V * C]));
    assert_eq!(raw(&model.params.lnfb), raw(&model.params_memory[count() - C..]));
    // The moments are carried on.
    model.update(F(0.1), F(0.9), F(0.999), F(1e-8), F(0.01), 2);
    let m1 = (1.0f32 - 0.9) * 0.5;
    assert_eq!(model.m_memory[0].0, 0.9 * m1 + (1.0 - 0.9) * 0.5);
}

#[test]
fn training_lowers_the_loss() {
    let mut model = loaded(&params(count(), 12));
    let inputs = [1, 2, 3, 0];
    let targets = [2, 3, 0, 1];
    let first = train_step(&mut model, &inputs, &targets, 1, 4, 0).unwrap();
    assert_eq!(first, model.mean_loss);
    assert_eq!(raw(&model.params.wpe), raw(&model.params_memory[V * C..V * C + MAX_T * C]));
    let mut last = first;
    for step in 1..20 {
        last = train_step(&mut model, &inputs, &targets, 1, 4, step).unwrap();
    }
    assert!(last.0 < first.0);
    assert_eq!(model.m_memory.len(), count());
}

#[test]
fn every_stage_of_a_step_keeps_the_model_trainable() {
    let mut model = loaded(&params(count(), 15));
    assert!(model.is_trainable());
    let loss = compute_step(&mut model, &[1, 2], &[2, 3], 1, 2);
    assert_eq!(loss, model.mean_loss);
    assert!(model.is_trainable());
    assert!(model.is_ready_for_backward());
    assert!(model.grads_acts.logits.iter().all(|x| x.0 == 0.0));
    model.backward().unwrap();
    assert!(model.is_trainable());
    assert_eq!(model.grads_memory.len(), model.num_parameters);
    let before = raw(&model.params_memory);
    apply_step(&mut model, 0);
    assert!(model.is_trainable());
    // The gradients are found in memory, and the parameters have moved by the learning rate.
    let found = unpack(&model.grads_memory, &model.param_sizes);
    assert_eq!(found.qkvw, model.grads.qkvw);
    assert_eq!(found.lnfb, model.grads.lnfb);
    let mut packed = fs(&vec![0.0; count()]);
    pack(&mut packed, &model.params);
    assert_eq!(packed, model.params_memory);
    for i in 0..count() {
        let g = model.grads_memory[i].0;
        let step = before[i] - model.params_memory[i].0;
        if g.abs() > 1e-3 {
            assert!(close(step, 1e-4 * g.signum(), 1e-5));
        }
    }
}

#[test]
fn text_is_generated() {
    let (max_t, v, l, nh, c) = (63, 50257, 1, 1, 1);
    let n: usize = sizes(max_t, v, l, c).iter().sum();
    let header = [20240326, 1, max_t as i32, v as i32, l as i32, nh as i32, c as i32];
    let mut model = GPT2::<F>::new();
    gpt2_build_from_checkpoint(&mut model, &checkpoint(&header, &params(n, 13))).unwrap();
    // Text is generated without gradients.
    model.grads.wte.clear();
    assert!(!model.is_trainable());
    assert!(model.can_generate());
    let mut state = 1337u64;
    let tokens = generate(&mut model, &mut state);
    assert_eq!(tokens.len(), 64);
    assert_eq!(tokens[0], GPT2_EOT);
    assert!(tokens.iter().all(|&x| (x as usize) < v));
    let mut expected = 1337u64;
    for _ in 1..64 {
        let _: F = random_f32(&mut expected);
    }
    assert_eq!(state, expected);
    assert_eq!(model.inputs.len(), 63);
    for i in 0..63 {
        assert_eq!(model.inputs[i], tokens[i] as i32);
    }
}

#[test]
fn callers_can_ask_first() {
    let mut model = GPT2::<F>::new();
    assert!(!model.is_computable());
    assert!(!model.is_trainable());
    assert!(!model.is_ready_for_backward());
    assert!(!model.can_generate());
    model = loaded(&params(count(), 14));
    assert!(model.is_computable());
    assert!(model.is_trainable());
    assert!(!model.is_ready_for_backward() || model.batch_size == 0);
    // The vocabulary has no token to start from.
    assert!(!model.can_generate());
    assert!(model.accepts(&[1, 2], None, 1, 2));
    assert!(model.accepts(&[1, 2], Some(&[6, 0]), 2, 1));
    assert!(!model.accepts(&[1], None, 1, 2));
    assert!(!model.accepts(&[1, 7], None, 1, 2));
    assert!(!model.accepts(&[1, -1], None, 1, 2));
    assert!(!model.accepts(&[1, 2], Some(&[7, 0]), 1, 2));
    assert!(!model.accepts(&[1, 2, 3, 4, 5], None, 1, 5));
    assert!(!model.accepts(&[1], None, usize::MAX, 2));
    model.forward(&[1, 2], Some(&[2, 3]), 1, 2).unwrap();
    assert!(model.is_ready_for_backward());
    model.inputs[0] = 7;
    assert!(!model.is_ready_for_backward());
    model.grads.wte.pop();
    assert!(!model.is_trainable());
    model.params.wte.pop();
    assert!(!model.is_computable());
}

#[test]
fn settings_have_defaults() {
    let config = Config::<F>::from_args(None, None, None).unwrap();
    assert_eq!(config.learning_rate, F(0.001));
    assert_eq!(config.batch_size, 32);
    assert_eq!(config.epochs, 10);
}

#[test]
fn settings_are_parsed() {
    let config = Config::<F>::from_args(Some("0.5"), Some("+007"), Some("3")).unwrap();
    assert_eq!(config.learning_rate, F(0.5));
    assert_eq!(config.batch_size, 7);
    assert_eq!(config.epochs, 3);
}

#[test]
fn settings_are_refused() {
    assert!(matches!(
        Config::<F>::from_args(Some("x"), Some("y"), None),
        Err(ConfigError::LearningRate)
    ));
    for text in ["", "+", "-1", " 1", "1 ", "1.5", "++1", "99999999999999999999999"] {
        assert!(matches!(
            Config::<F>::from_args(None, Some(text), Some("y")),
            Err(ConfigError::BatchSize)
        ));
        assert!(matches!(
            Config::<F>::from_args(None, None, Some(text)),
            Err(ConfigError::Epochs)
        ));
    }
    assert_eq!(ConfigError::LearningRate.message(), "Invalid learning rate");
    assert_eq!(ConfigError::BatchSize.message(), "Invalid batch size");
    assert_eq!(ConfigError::Epochs.message(), "Invalid number of epochs");
}
