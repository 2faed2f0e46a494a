[package]
name = "mbrotli"
version = "0.1.0"
edition = "2021"
publish = false

[dependencies]
fearless_simd = { version = "=1.2.0", features = ["force_support_fallback"] }
thiserror = "=2.0.21"
