[package]
name = "cognet"
version = "0.1.0"
edition = "2021"
publish = false

[dependencies]
ulid = "1"
serde = "1"
tracing = "0.1"
inventory = "0.3"
rayon = "1"
futures = "0.3"
async-trait = "0.1"
