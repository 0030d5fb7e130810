[package]
name = "curta"
version = "0.1.0"
edition = "2021"
publish = false

[dependencies]
anyhow = "=1.0.104"
num = "=0.4.3"
plonky2 = "=0.2.2"
serde = { version = "=1.0.229", features = ["derive"] }

[dev-dependencies]
hex = "=0.4.3"
num = { version = "=0.4.3", features = ["rand"] }
rand = "=0.8.8"
