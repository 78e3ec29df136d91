[package]
name = "senax-encoder"
version = "0.1.0"
edition = "2021"
publish = false

[dependencies]
bytes = "=1.12.1"
crc = "=3.4.0"
chrono = "=0.4.45"
rust_decimal = "=1.43.0"
uuid = { version = "=1.29.0", features = ["v4"] }
ulid = "=1.2.1"
serde_json = { version = "=1.0.154", features = ["raw_value"] }
smol_str = "=0.3.7"
indexmap = "=2.14.2"
fxhash = "=0.2.1"
ahash = "=0.8.12"
thiserror = "=1.0.69"
syn = { version = "=2.0.119", features = ["full"] }
quote = "=1.0.47"
proc-macro2 = "=1.0.107"
