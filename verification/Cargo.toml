[package]
name = "gpt2_train"
version = "0.1.0"
edition = "2021"
publish = false

[dependencies]
bytemuck = "1"
byteorder = "1"
cblas = "0.4"
clap = "2"
rayon = "1"
tokenizers = { version = "0.21", default-features = false, features = ["fancy-regex", "http"] }
