[package]
name = "cursor_api"
version = "0.1.0"
edition = "2021"
publish = false

[dependencies]
base64-simd = "=0.8.0"
itoa = "=1.0.18"
serde_core = "=1.0.229"
ahash = "=0.8.12"
scc = "=3.4.16"
indexmap = "=2.14.2"
