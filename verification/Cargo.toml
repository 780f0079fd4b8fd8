[package]
name = "msm"
version = "0.1.0"
edition = "2021"
publish = false

[dependencies]
rayon = "1"
ff = "0.13"
group = "0.13"
pasta_curves = "0.5"

[dev-dependencies]
rand_core = { version = "0.6", features = ["getrandom"] }
