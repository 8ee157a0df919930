use gpt2_train::attention::attention_forward;
use gpt2_train::attention_backward::attention_backward;
use gpt2_train::buffer::{put_columns, resize, take_columns, zeros};
use gpt2_train::crossentropy::{crossentropy_forward, crossentropy_softmax_backward};
use gpt2_train::encoder::{encoder_backward, encoder_forward};
use gpt2_train::gelu::{gelu_backward, gelu_forward};
use gpt2_train::layernorm::{layernorm_backward, layernorm_forward};
use gpt2_train::matmul::{bias_backward, matmul_backward_blas, matmul_forward, multiply};
use gpt2_train::residual::{residual_backward, residual_forward};
use gpt2_train::sampling::{random_f32, random_u32, sample_mult};
use gpt2_train::scalar::{Scalar, Transpose};
use gpt2_train::softmax::softmax_forward;
use gpt2_train::training::{infers, mean_of_losses, validates};

#[derive(Clone, Copy, Debug, PartialEq)]
struct F(f32);

impl Scalar for F {
    fn zero() -> F {
        F(0.0)
    }
    fn one() -> F {
        F(1.0)
    }
    fn decimal(mantissa: u64, places: u32) -> F {
        F(format!("{}e-{}", mantissa, places).parse().unwrap())
    }
    fn from_usize(n: usize) -> F {
        F(n as f32)
    }
    fn pi() -> F {
        F(std::f32::consts::PI)
    }
    fn neg_infinity() -> F {
        F(f32::NEG_INFINITY)
    }
    fn max_value() -> F {
        F(f32::MAX)
    }
    fn from_bits(bits: u32) -> F {
        F(f32::from_bits(bits))
    }
    fn parse(text: &str) -> Option<F> {
        text.parse().ok().map(F)
    }
    fn add(self, other: F) -> F {
        F(self.0 + other.0)
    }
    fn sub(self, other: F) -> F {
        F(self.0 - other.0)
    }
    fn mul(self, other: F) -> F {
        F(self.0 * other.0)
    }
    fn div(self, other: F) -> F {
        F(self.0 / other.0)
    }
    fn max(self, other: F) -> F {
        F(self.0.max(other.0))
    }
    fn min(self, other: F) -> F {
        F(self.0.min(other.0))
    }
    fn neg(self) -> F {
        F(-self.0)
    }
    fn sqrt(self) -> F {
        F(self.0.sqrt())
    }
    fn exp(self) -> F {
        F(self.0.exp())
    }
    fn ln(self) -> F {
        F(self.0.ln())
    }
    fn tanh(self) -> F {
        F(self.0.tanh())
    }
    fn cosh(self) -> F {
        F(self.0.cosh())
    }
    fn powi(self, n: i32) -> F {
        F(self.0.powi(n))
    }
    fn gt(self, other: F) -> bool {
        self.0 > other.0
    }
    fn lt(self, other: F) -> bool {
        self.0 < other.0
    }
    fn eq(self, other: F) -> bool {
        self.0 == other.0
    }
    fn gemm(
        trans_a: Transpose,
        trans_b: Transpose,
        m: i32,
        n: i32,
        k: i32,
        a: &[F],
        lda: i32,
        b: &[F],
        ldb: i32,
    ) -> Vec<F> {
        let (m, n, k) = (m as usize, n as usize, k as usize);
        let (lda, ldb) = (lda as usize, ldb as usize);
        let mut out = Vec::new();
        for i in 0..m {
            for j in 0..n {
                let mut sum = 0.0;
                for l in 0..k {
                    let x = match trans_a {
                        Transpose::Plain => a[i * lda + l].0,
                        Transpose::Ordinary => a[l * lda + i].0,
                    };
                    let y = match trans_b {
                        Transpose::Plain => b[l * ldb + j].0,
                        Transpose::Ordinary => b[j * ldb + l].0,
                    };
                    sum += x * y;
                }
                out.push(F(sum));
            }
        }
        out
    }
}

fn fs(x: &[f32]) -> Vec<F> {
    x.iter().map(|&v| F(v)).collect()
}

fn raw(x: &[F]) -> Vec<f32> {
    x.iter().map(|v| v.0).collect()
}

fn close(x: f32, y: f32, eps: f32) -> bool {
    (x - y).abs() <= eps * (1.0 + x.abs().max(y.abs()))
}

fn noise(n: usize, seed: u64) -> Vec<f32> {
    let mut state = seed;
    (0..n)
        .map(|_| {
            let x: F = random_f32(&mut state);
            x.0 - 0.5
        })
        .collect()
}

#[test]
fn residual_adds_and_copies_back() {
    let mut out = fs(&[9.0, 9.0, 9.0]);
    residual_forward(&mut out, &fs(&[1.0, 2.0, 3.0]), &fs(&[10.0, 20.0, 30.0]), 2);
    assert_eq!(raw(&out), vec![11.0, 22.0, 9.0]);
    let mut a = fs(&[5.0, 5.0, 5.0]);
    let mut b = fs(&[6.0, 6.0, 6.0]);
    residual_backward(&mut a, &mut b, &fs(&[1.0, 2.0, 3.0]), 2);
    assert_eq!(raw(&a), vec![1.0, 2.0, 5.0]);
    assert_eq!(raw(&b), vec![1.0, 2.0, 6.0]);
}

#[test]
fn gelu_values() {
    let xs = [-1.5f32, 0.0, 1.0, 2.25];
    let mut out = fs(&[0.0; 4]);
    gelu_forward(&mut out, &fs(&xs), 4);
    let s = (2.0 / std::f32::consts::PI).sqrt();
    for i in 0..4 {
        let x = xs[i];
        let cube = 0.044715 * x * x * x;
        assert_eq!(out[i].0, 0.5 * x * (1.0 + (s * (x + cube)).tanh()));
    }
    assert!(close(out[2].0, 0.841192, 1e-6));
    assert_eq!(out[1].0, 0.0);
}

#[test]
fn gelu_slope_adds_to_the_gradient() {
    let xs = [-1.5f32, 0.0, 1.0, 2.25];
    let mut din = fs(&[1.0; 4]);
    gelu_backward(&mut din, &fs(&xs), &fs(&[2.0; 4]), 4);
    for i in 0..4 {
        let h = 1e-3f32;
        let mut hi = fs(&[0.0]);
        let mut lo = fs(&[0.0]);
        gelu_forward(&mut hi, &fs(&[xs[i] + h]), 1);
        gelu_forward(&mut lo, &fs(&[xs[i] - h]), 1);
        let slope = (hi[0].0 - lo[0].0) / (2.0 * h);
        assert!(close(din[i].0, 1.0 + 2.0 * slope, 2e-3));
    }
    // At zero the slope is one half.
    assert_eq!(din[1].0, 2.0);
}

#[test]
fn encoder_adds_token_and_position() {
    let wte = fs(&[0.0, 1.0, 2.0, 3.0, 4.0, 5.0]);
    let wpe = fs(&[100.0, 200.0, 300.0, 400.0]);
    let mut out = fs(&[0.0; 8]);
    encoder_forward(&mut out, &[2, 0, 1, 2], &wte, &wpe, 2, 2, 2);
    assert_eq!(raw(&out), vec![104.0, 205.0, 300.0, 401.0, 102.0, 203.0, 304.0, 405.0]);
}

#[test]
fn encoder_ignores_tokens_without_channels() {
    let mut out = fs(&[1.0]);
    encoder_forward(&mut out, &[-1, 7], &[], &[], 1, 2, 0);
    assert_eq!(raw(&out), vec![1.0]);
}

#[test]
fn encoder_gathers_gradients() {
    let mut dwte = fs(&[0.5; 6]);
    let mut dwpe = fs(&[0.0; 4]);
    let dout = fs(&[1.0, 2.0, 3.0, 4.0, 5.0, 6.0, 7.0, 8.0]);
    encoder_backward(&mut dwte, &mut dwpe, &dout, &[2, 0, 1, 2], 2, 2, 2);
    assert_eq!(raw(&dwte), vec![3.5, 4.5, 5.5, 6.5, 8.5, 10.5]);
    assert_eq!(raw(&dwpe), vec![6.0, 8.0, 10.0, 12.0]);
}

#[test]
fn layernorm_values() {
    let mut out = fs(&[0.0; 4]);
    let mut mean = fs(&[0.0; 2]);
    let mut rstd = fs(&[0.0; 2]);
    layernorm_forward(
        &mut out,
        &mut mean,
        &mut rstd,
        &fs(&[1.0, 3.0, 10.0, 10.0]),
        &fs(&[2.0, 3.0]),
        &fs(&[0.5, 0.25]),
        1,
        2,
        2,
    );
    assert_eq!(raw(&mean), vec![2.0, 10.0]);
    let s = 1.0 / (1.0f32 + 1e-5).sqrt();
    assert_eq!(rstd[0].0, s);
    assert_eq!(rstd[1].0, 1.0 / 1e-5f32.sqrt());
    assert_eq!(out[0].0, (s * (1.0 - 2.0)) * 2.0 + 0.5);
    assert_eq!(out[1].0, (s * (3.0 - 2.0)) * 3.0 + 0.25);
    assert_eq!(out[2].0, 0.5);
    assert_eq!(out[3].0, 0.25);
}

#[test]
fn layernorm_gradients_match_differences() {
    let c = 4;
    let inp = noise(2 * c, 11);
    let weight = noise(c, 12);
    let bias = noise(c, 13);
    let dout = noise(2 * c, 14);
    let run = |inp: &[f32], weight: &[f32], bias: &[f32]| -> f32 {
        let mut out = fs(&[0.0; 8]);
        let mut mean = fs(&[0.0; 2]);
        let mut rstd = fs(&[0.0; 2]);
        layernorm_forward(
            &mut out, &mut mean, &mut rstd, &fs(inp), &fs(weight), &fs(bias), 2, 1, c,
        );
        out.iter().zip(dout.iter()).map(|(o, d)| o.0 * d).sum()
    };
    let mut out = fs(&[0.0; 8]);
    let mut mean = fs(&[0.0; 2]);
    let mut rstd = fs(&[0.0; 2]);
    layernorm_forward(
        &mut out, &mut mean, &mut rstd, &fs(&inp), &fs(&weight), &fs(&bias), 2, 1, c,
    );
    let mut dinp = fs(&[0.0; 8]);
    let mut dweight = fs(&[0.0; 4]);
    let mut dbias = fs(&[1.0; 4]);
    layernorm_backward(
        &mut dinp, &mut dweight, &mut dbias, &fs(&dout), &fs(&inp), &fs(&weight), &mean, &rstd, 2,
        1, c,
    );
    let h = 1e-2f32;
    for i in 0..8 {
        let mut hi = inp.clone();
        let mut lo = inp.clone();
        hi[i] += h;
        lo[i] -= h;
        let slope = (run(&hi, &weight, &bias) - run(&lo, &weight, &bias)) / (2.0 * h);
        assert!(close(dinp[i].0, slope, 2e-2));
    }
    for i in 0..c {
        let mut hi = weight.clone();
        let mut lo = weight.clone();
        hi[i] += h;
        lo[i] -= h;
        let slope = (run(&inp, &hi, &bias) - run(&inp, &lo, &bias)) / (2.0 * h);
        assert!(close(dweight[i].0, slope, 2e-2));
        assert!(close(dbias[i].0, 1.0 + dout[i] + dout[c + i], 1e-5));
    }
}

#[test]
fn multiply_reads_transposes() {
    let a = fs(&[1.0, 2.0, 3.0, 4.0, 5.0, 6.0]);
    let b = fs(&[1.0, 0.0, 0.0, 1.0, 1.0, 1.0]);
    let plain = multiply(Transpose::Plain, Transpose::Plain, 2, 2, 3, &a, &b);
    assert_eq!(raw(&plain), vec![4.0, 5.0, 10.0, 11.0]);
    let turned = multiply(Transpose::Ordinary, Transpose::Ordinary, 3, 3, 2, &a, &b);
    assert_eq!(raw(&turned), vec![1.0, 4.0, 5.0, 2.0, 5.0, 7.0, 3.0, 6.0, 9.0]);
}

#[test]
fn matmul_projects_and_adds_the_bias() {
    // Two places, three channels, two outputs.
    let inp = fs(&[1.0, 2.0, 3.0, 4.0, 5.0, 6.0]);
    let weight = fs(&[1.0, 0.0, 1.0, 0.0, 1.0, 0.0]);
    let mut out = fs(&[0.0; 4]);
    matmul_forward(&mut out, &inp, &weight, Some(&fs(&[10.0, 20.0])), 1, 2, 3, 2);
    assert_eq!(raw(&out), vec![14.0, 22.0, 20.0, 25.0]);
    matmul_forward(&mut out, &inp, &weight, None, 2, 1, 3, 2);
    assert_eq!(raw(&out), vec![4.0, 2.0, 10.0, 5.0]);
}

#[test]
fn matmul_gradients() {
    let inp = fs(&[1.0, 2.0, 3.0, 4.0, 5.0, 6.0]);
    let weight = fs(&[1.0, 0.0, 1.0, 0.0, 1.0, 0.0]);
    let dout = fs(&[1.0, 2.0, 3.0, 4.0]);
    let mut dinp = fs(&[7.0; 6]);
    let mut dweight = fs(&[7.0; 6]);
    let mut dbias = fs(&[100.0, 200.0]);
    matmul_backward_blas(
        &mut dinp,
        &mut dweight,
        Some(&mut dbias),
        &dout,
        &inp,
        &weight,
        1,
        2,
        3,
        2,
    );
    // The gradients of the input and the weight replace what was there.
    assert_eq!(raw(&dinp), vec![1.0, 2.0, 1.0, 3.0, 4.0, 3.0]);
    assert_eq!(raw(&dweight), vec![13.0, 17.0, 21.0, 18.0, 24.0, 30.0]);
    // That of the bias is added to it.
    assert_eq!(raw(&dbias), vec![104.0, 206.0]);
    let mut again = fs(&[0.0, 0.0]);
    bias_backward(&mut again, &dout, 2, 2);
    assert_eq!(raw(&again), vec![4.0, 6.0]);
}

#[test]
fn products_replace_as_much_as_they_hold() {
    let inp = fs(&[1.0, 2.0, 3.0, 4.0, 5.0, 6.0]);
    let weight = fs(&[1.0, 0.0, 1.0, 0.0, 1.0, 0.0]);
    let mut out = fs(&[9.0; 6]);
    matmul_forward(&mut out, &inp, &weight, None, 1, 2, 3, 2);
    assert_eq!(raw(&out), vec![4.0, 2.0, 10.0, 5.0, 9.0, 9.0]);
    let empty: Vec<F> = multiply(Transpose::Plain, Transpose::Plain, 0, 4, 3, &[], &fs(&[1.0; 12]));
    assert!(empty.is_empty());
}

#[test]
fn softmax_rows_add_up_to_one() {
    let mut out = fs(&[0.0; 6]);
    softmax_forward(&mut out, &fs(&[0.0, 0.0, 0.0, 1.0, 2.0, 3.0]), 1, 2, 3);
    let third = 1.0 * (1.0f32 / 3.0);
    assert_eq!(raw(&out[..3]), vec![third, third, third]);
    let total: f32 = raw(&out[3..]).iter().sum();
    assert!(close(total, 1.0, 1e-6));
    assert!(out[3].0 < out[4].0 && out[4].0 < out[5].0);
}

#[test]
fn crossentropy_values() {
    let probs = fs(&[0.25, 0.75, 0.5, 0.5]);
    let mut losses = fs(&[0.0; 2]);
    crossentropy_forward(&mut losses, &probs, &[1, 0], 2, 1, 2);
    assert_eq!(raw(&losses), vec![-(0.75f32.ln()), -(0.5f32.ln())]);
    let mut dlogits = fs(&[1.0; 4]);
    crossentropy_softmax_backward(&mut dlogits, &fs(&[0.5, 2.0]), &probs, &[1, 0], 2, 1, 2);
    assert_eq!(raw(&dlogits), vec![1.125, 0.875, 0.0, 2.0]);
}

#[test]
fn crossentropy_ignores_a_target_outside_the_vocabulary_going_back() {
    let mut dlogits = fs(&[0.0; 2]);
    crossentropy_softmax_backward(&mut dlogits, &fs(&[1.0]), &fs(&[0.25, 0.75]), &[-1], 1, 1, 2);
    assert_eq!(raw(&dlogits), vec![0.25, 0.75]);
}

fn attend(inp: &[f32], b: usize, t: usize, c: usize, nh: usize) -> (Vec<f32>, Vec<f32>, Vec<f32>) {
    let mut out = fs(&vec![0.0; b * t * c]);
    let mut pre = fs(&vec![0.0; b * nh * t * t]);
    let mut att = fs(&vec![7.0; b * nh * t * t]);
    attention_forward(&mut out, &mut pre, &mut att, &fs(inp), b, t, c, nh);
    (raw(&out), raw(&pre), raw(&att))
}

#[test]
fn attention_values() {
    // One head of one channel: queries 1 and 1, keys 0 and 2, values 10 and 20.
    let (out, pre, att) = attend(&[1.0, 0.0, 10.0, 1.0, 2.0, 20.0], 1, 2, 1, 1);
    assert_eq!(pre, vec![0.0, 0.0, 0.0, 2.0]);
    assert_eq!(att[..2], [1.0, 0.0]);
    let low = (0.0f32 - 2.0).exp();
    let inv = 1.0 / (low + 1.0);
    assert_eq!(att[2..], [low * inv, 1.0 * inv]);
    assert_eq!(out[0], 10.0);
    assert_eq!(out[1], low * inv * 10.0 + inv * 20.0);
}

#[test]
fn attention_is_causal() {
    let (b, t, c, nh) = (2, 3, 4, 2);
    let one = noise(b * t * 3 * c, 5);
    let mut two = one.clone();
    // Change the last place of the first sequence, and all of the second one.
    for x in two[2 * 3 * c..].iter_mut() {
        *x += 1.0;
    }
    let (out1, _, att1) = attend(&one, b, t, c, nh);
    let (out2, _, att2) = attend(&two, b, t, c, nh);
    assert_eq!(out1[..2 * c], out2[..2 * c]);
    assert_ne!(out1[2 * c..3 * c], out2[2 * c..3 * c]);
    for h in 0..nh {
        for i in 0..t {
            for j in i + 1..t {
                assert_eq!(att1[h * t * t + i * t + j], 0.0);
                assert_eq!(att2[h * t * t + i * t + j], 0.0);
            }
        }
    }
}

#[test]
fn attention_gradients_match_differences() {
    let (b, t, c, nh) = (2, 3, 4, 2);
    let inp = noise(b * t * 3 * c, 21);
    let dout = noise(b * t * c, 22);
    let run = |inp: &[f32]| -> f32 {
        let (out, _, _) = attend(inp, b, t, c, nh);
        out.iter().zip(dout.iter()).map(|(o, d)| o * d).sum()
    };
    let (_, _, att) = attend(&inp, b, t, c, nh);
    let mut dinp = fs(&vec![9.0; b * t * 3 * c]);
    let mut dpre = fs(&vec![9.0; b * nh * t * t]);
    let mut datt = fs(&vec![9.0; b * nh * t * t]);
    attention_backward(
        &mut dinp,
        &mut dpre,
        &mut datt,
        &fs(&dout),
        &fs(&inp),
        &fs(&att),
        b,
        t,
        c,
        nh,
    );
    let h = 1e-2f32;
    for i in 0..inp.len() {
        let mut hi = inp.clone();
        let mut lo = inp.clone();
        hi[i] += h;
        lo[i] -= h;
        let slope = (run(&hi) - run(&lo)) / (2.0 * h);
        assert!(close(dinp[i].0, slope, 5e-3));
    }
}

#[test]
fn attention_gradients_ignore_what_was_there() {
    let (b, t, c, nh) = (2, 3, 4, 2);
    let inp = fs(&noise(b * t * 3 * c, 31));
    let dout = fs(&noise(b * t * c, 32));
    let (_, _, att) = attend(&raw(&inp), b, t, c, nh);
    let att = fs(&att);
    let run = |seed: u64| {
        let mut dinp = fs(&noise(b * t * 3 * c, seed));
        let mut dpre = fs(&noise(b * nh * t * t, seed + 1));
        let mut datt = fs(&noise(b * nh * t * t, seed + 2));
        attention_backward(&mut dinp, &mut dpre, &mut datt, &dout, &inp, &att, b, t, c, nh);
        (raw(&dinp), raw(&dpre), raw(&datt))
    };
    let (dinp, dpre, datt) = run(40);
    assert_eq!(run(50), (dinp, dpre.clone(), datt.clone()));
    for pair in 0..b * nh {
        for p in 0..t {
            for q in p + 1..t {
                assert_eq!(dpre[(pair * t + p) * t + q], 0.0);
                assert_eq!(datt[(pair * t + p) * t + q], 0.0);
            }
        }
    }
}

#[test]
fn columns_are_read_back() {
    let mut s = vec![0, 1, 2, 3, 4, 5, 6, 7, 8];
    assert_eq!(take_columns(&s, 1, 2, 3, 3), vec![1, 2, 4, 5, 7, 8]);
    put_columns(&mut s, 0, 1, 3, 3, &[10, 11, 12]);
    assert_eq!(s, vec![10, 1, 2, 11, 4, 5, 12, 7, 8]);
    assert_eq!(take_columns(&s, 0, 1, 3, 3), vec![10, 11, 12]);
}

#[test]
fn buffers_are_resized() {
    let mut v = zeros::<F>(2);
    assert_eq!(raw(&v), vec![0.0, 0.0]);
    v[0] = F(3.0);
    resize(&mut v, 3);
    assert_eq!(raw(&v), vec![3.0, 0.0, 0.0]);
    resize(&mut v, 1);
    assert_eq!(raw(&v), vec![3.0]);
}

#[test]
fn random_numbers() {
    let mut state = 1337u64;
    assert_eq!(random_u32(&mut state), 2299477115);
    assert_eq!(state, 44862276727);
    assert_eq!(random_u32(&mut state), 2663109652);
    assert_eq!(state, 1505695687211150372);
    let x: F = random_f32(&mut state);
    assert_eq!(x.0, 1436160.0 / 16777216.0);
    assert_eq!(state, 4407930892292281700);
    let mut nothing = 0u64;
    assert_eq!(random_u32(&mut nothing), 0);
    assert_eq!(nothing, 0);
}

#[test]
fn random_numbers_are_proper_fractions() {
    let mut state = 7u64;
    for _ in 0..1000 {
        let mut copy = state;
        let bits = random_u32(&mut copy);
        let x: F = random_f32(&mut state);
        assert_eq!(state, copy);
        assert_eq!(x.0, (bits >> 8) as f32 / 16777216.0);
        assert!(0.0 <= x.0 && x.0 < 1.0);
    }
    // The greatest of them.
    assert!(16777215.0f32 / 16777216.0 < 1.0);
}

#[test]
fn random_states_stay_apart() {
    let mut seen = Vec::new();
    for seed in 1..50u64 {
        let mut state = seed;
        random_u32(&mut state);
        assert_ne!(state, 0);
        assert!(!seen.contains(&state));
        seen.push(state);
    }
}

#[test]
fn sampling_follows_the_running_sums() {
    let p = fs(&[0.25, 0.5, 0.25]);
    assert_eq!(sample_mult(&p, F(0.0)), 0);
    assert_eq!(sample_mult(&p, F(0.25)), 1);
    assert_eq!(sample_mult(&p, F(0.7)), 1);
    assert_eq!(sample_mult(&p, F(0.75)), 2);
    // No sum exceeds the coin: the last place is taken.
    assert_eq!(sample_mult(&p, F(1.0)), 2);
    assert_eq!(sample_mult(&fs(&[0.0]), F(0.5)), 0);
}

#[test]
fn schedule() {
    assert!(validates(0));
    assert!(!validates(1));
    assert!(validates(20));
    assert!(!infers(0));
    assert!(!infers(19));
    assert!(infers(20));
    assert!(infers(40));
}

#[test]
fn losses_have_a_mean() {
    assert_eq!(mean_of_losses(&fs(&[1.0, 2.0, 6.0])).0, 3.0);
    assert!(mean_of_losses::<F>(&[]).0.is_nan());
}
