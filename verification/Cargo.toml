[package]
name = "fri_oracle"
version = "0.1.0"
edition = "2021"
publish = false

[dependencies]
plonky2_field = "=0.2.2"
plonky2_maybe_rayon = { version = "=0.2.0", features = ["parallel"] }
rand = "=0.8.8"
rustacuda = "=0.1.3"
