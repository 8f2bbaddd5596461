[package]
name = "halo2_proofs"
version = "0.1.0"
edition = "2021"
publish = false

[dependencies]
ark-std = "0.3"
ff = "0.13"
group = "0.13"
log = "0.4"
rayon = "1"

[dev-dependencies]
pasta_curves = "0.5"
