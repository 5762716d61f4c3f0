[package]
name = "stark_boolean_verifier"
version = "0.1.0"
edition = "2021"
publish = false

[dependencies]
anyhow = "1"
bincode = "1"
blake2 = "0.10"
blake3 = "1"
cairo-program-runner-lib = "1"
cairo-vm = "3"
num-bigint = "0.4"
p3-field = "=0.4.3-succinct"
p3-symmetric = "=0.4.3-succinct"
risc0-core = "=3.0.2"
risc0-zkp = "=3.0.5"
serde = { version = "1", features = ["derive"] }
serde_json = "1"
slop-koala-bear = "=6.3.1"
sp1-primitives = "=6.3.1"
