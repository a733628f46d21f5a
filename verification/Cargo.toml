[package]
name = "sumcheck"
version = "0.1.0"
edition = "2021"
publish = false

[dependencies]
ark-ff = "0.4"
ark-poly = "0.4"
ark-test-curves = { version = "0.4", features = ["bls12_381_curve"] }
rand = "0.8"
