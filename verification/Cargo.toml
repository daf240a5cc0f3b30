[package]
name = "pmtiles2"
version = "0.1.0"
edition = "2021"
publish = false

[dependencies]
ahash = "*"
brotli = "*"
flate2 = "*"
futures = "*"
hilbert_2d = "*"
serde_json = "*"
zstd = "*"
