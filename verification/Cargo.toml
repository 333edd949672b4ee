[package]
name = "kelpie"
version = "0.1.0"
edition = "2021"
publish = false

[dependencies]
pco = "=1.0.4"
sqlite = "=0.37.4"
thiserror = "=1.0.69"

[dev-dependencies]
rand = { version = "=0.8.8", features = ["small_rng"] }
quickcheck = "=1.1.0"
