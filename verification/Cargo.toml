[package]
name = "circuits"
version = "0.1.0"
edition = "2021"
publish = false

[dependencies]
p3-air = "=0.6.3"
p3-challenger = "=0.6.3"
p3-commit = "=0.6.3"
p3-dft = "=0.6.3"
p3-field = "=0.6.3"
p3-fri = "=0.6.3"
p3-goldilocks = "=0.6.3"
p3-matrix = "=0.6.3"
p3-merkle-tree = "=0.6.3"
p3-poseidon2-air = "=0.6.3"
p3-symmetric = "=0.6.3"
p3-uni-stark = "=0.6.3"
bincode = "=1.3.3"
rand = { version = "=0.10.3", features = ["chacha"] }
rand_core = "=0.10.1"
