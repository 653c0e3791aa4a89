[package]
name = "twin_prime_engine"
version = "0.1.0"
edition = "2021"
publish = false

[dependencies]
rug = { version = "1", default-features = false, features = ["integer", "std"] }
rayon = "1"
serde = { version = "1", features = ["derive"] }
serde_json = "1"
rand = "0.8"
num_cpus = "1"
