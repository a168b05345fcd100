[package]
name = "zed_benchmark"
version = "0.1.0"
edition = "2021"
publish = false

[dependencies]
gix = { version = "*", features = ["blocking-network-client"] }
imara-diff = "*"
lsp-types = { version = "*", features = ["proposed"] }
rustc-hash = "*"
tempfile = "*"
