//! Training of GPT-2 style transformers over any scalar type.

pub mod attention;
pub mod attention_backward;
pub mod attention_gradients;
pub mod attention_laws;
pub mod attention_numbers;
pub mod backward;
pub mod backward_numbers;
pub mod buffer;
pub mod bytes;
pub mod causality;
pub mod checkpoint;
pub mod cli;
pub mod crossentropy;
pub mod dataloader;
pub mod determinism;
pub mod encoder;
pub mod forward;
pub mod forward_numbers;
pub mod gelu;
pub mod generation;
pub mod generation_laws;
pub mod gradient_laws;
pub mod kernel_gradients;
pub mod kernel_numbers;
pub mod layernorm;
pub mod layers;
pub mod layers_backward;
pub mod layout_laws;
pub mod matmul;
pub mod model;
pub mod optimiser_laws;
pub mod parallel;
pub mod readiness;
pub mod reals;
pub mod residual;
pub mod sampling;
pub mod scalar;
pub mod softmax;
pub mod tensors;
pub mod tokens;
pub mod training;
pub mod training_laws;
