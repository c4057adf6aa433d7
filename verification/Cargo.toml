[package]
name = "hyperspeedcube"
version = "0.1.0"
edition = "2021"
publish = false

[dependencies]
ahash = "0.8"
itertools = "0.12"
log = "0.4"
serde = { version = "1", features = ["derive"] }
slab = "0.4"
strum = { version = "0.25", features = ["derive"] }
tinyset = "0.4"
