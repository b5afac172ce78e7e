[package]
name = "brainfuck"
version = "1.0.0"
edition = "2021"
publish = false

[dependencies]
clap = "4"
clgl = "*"
fastrand = "1"
image = { version = "0.24", default-features = false, features = ["png"] }
nanorand = "0.7"
rand = { version = "0.8", features = ["small_rng"] }
