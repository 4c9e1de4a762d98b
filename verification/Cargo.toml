[package]
name = "fastris"
version = "0.1.0"
edition = "2021"
publish = false

[dependencies]
flatbuffers = "23.5"
rand = "0.8"
rand_chacha = "0.3"
rand_xorshift = "0.3"
futures = "0.3"
async-trait = "0.1"
tokio = { version = "1", features = ["full"] }
clap = { version = "4", features = ["derive"] }
