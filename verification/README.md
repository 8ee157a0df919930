# gpt2_train

Training and sampling of GPT-2 style transformers, with the arithmetic left open.

The library in `src/` is written in Verus. Every kernel, the forward and the backward pass, the
optimiser, the checkpoint format, the batches of tokens, sampling and generation carry contracts
that are proved. All of it is generic over a scalar type (`scalar::Scalar`), of which nothing is
assumed: a contract says which scalar operations were applied to which operands, in which order,
and what was left unchanged. A formula is an `Expr`, and `evals(e, v)` says that `v` may be its
value.

| module | what it holds |
| --- | --- |
| `scalar`, `buffer`, `bytes`, `parallel` | scalars and formulas, flat buffers, numbers as bytes, threads |
| `encoder`, `layernorm`, `matmul`, `attention`, `attention_backward`, `residual`, `gelu`, `softmax`, `crossentropy` | the kernels and their gradients |
| `tensors`, `model` | the tensors, the model, the AdamW optimiser |
| `layers`, `layers_backward`, `forward`, `backward` | one layer, all layers, both passes |
| `checkpoint`, `dataloader`, `tokens`, `cli` | files and settings, as bytes and text |
| `sampling`, `generation`, `training` | random numbers, text, training steps |
| `determinism`, `attention_laws`, `causality`, `gradient_laws` | what follows where the scalar operations are functions: equal runs, causality, gradients that ignore what was there |
| `readiness` | what a caller can ask of a model before it calls on it |

`app/` is the program around it: single precision numbers multiplied by BLAS, the command line,
the files and the training loop. `tests/` runs the library on single precision numbers.
