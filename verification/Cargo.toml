[package]
name = "zkproof"
version = "0.1.0"
edition = "2021"
publish = false

[dependencies]
ark-bn254 = "=0.6.0"
ark-circom = { version = "=0.6.0", default-features = false }
ark-ff = "=0.6.0"
ark-groth16 = "=0.6.0"
ark-serialize = "=0.6.0"
ark-snark = "=0.6.0"
rand = "=0.8.8"
