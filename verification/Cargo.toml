[package]
name = "iso2x"
version = "0.1.0"
edition = "2021"
publish = false

[dependencies]
anyhow = "=1.0.104"
ciso = { version = "=0.3.0", default-features = false, features = ["sync"] }
encoding_rs = "=0.8.44"
js-sys = "=0.3.107"
lz4_flex = "=0.14.0"
ruzstd = "=0.9.1"
serde = { version = "=1.0.229", features = ["derive"] }
sha1 = "=0.11.0"
sha2 = "=0.11.1"
tsify = "=0.5.8"
wasm-bindgen = "=0.2.130"
xdvdfs = { version = "=0.8.3", default-features = false, features = ["std", "read", "write", "sync"] }
