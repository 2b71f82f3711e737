[package]
name = "runic"
version = "0.1.0"
edition = "2021"
publish = false

[dependencies]
bytes = "1"
csv = "1"
flate2 = "1"
httparse = "1"
libc = "0.2"
regex = "1"
serde_json = "1"
spin = "*"
tokio = { version = "1", features = ["rt-multi-thread", "sync"] }
toml = "*"
