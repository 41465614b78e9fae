[package]
name = "driving_sim"
version = "0.1.0"
edition = "2021"
publish = false

[dependencies]
rand = "0.6"
rand_xorshift = "0.1"
serde = "1.0"
serde_derive = "1.0"
