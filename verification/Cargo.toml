[package]
name = "genetic_privacy"
version = "0.1.0"
edition = "2021"
publish = false

[dependencies]
serde = { version = "=1.0.229", features = ["derive"] }
serde_json = "=1.0.151"
bincode = "=1.3.3"
csv = "=1.4.0"
rand = "=0.10.3"
rayon = "=1.12.0"
fnv = "=1.0.7"
