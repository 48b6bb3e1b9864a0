[package]
name = "steel"
version = "0.1.0"
edition = "2021"
publish = false

[dependencies]
crossbeam = "0.8"
futures = "0.3"
glam = "*"
libc = "0.2"
log = "0.4"
proc-macro2 = "1"
quote = "1"
rayon = "1"
rustc-hash = "2"
serde = { version = "1", features = ["derive"] }
simdnbt = "*"
smallvec = "1"
tokio = { version = "1", features = ["rt-multi-thread", "time", "macros"] }
tokio-util = "0.7"
toml = "*"
tracing = "0.1"

[dev-dependencies]
rand = "*"
