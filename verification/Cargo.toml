[package]
name = "extraction_gym"
version = "0.1.0"
edition = "2021"
publish = false

[dependencies]
indexmap = "2"
rustc-hash = "1.1"
rand = "0.8"
ordered-float = "3"
egraph-serialize = "*"
serde = { version = "1", features = ["derive"] }
serde_json = "1"
anyhow = "1"
pico-args = { version = "0.5", features = ["eq-separator"] }
env_logger = "0.10"
log = "0.4"
rayon = "1"
tempfile = "3"
coin_cbc = "0.1"
