[package]
name = "mcshader_lsp"
version = "0.1.0"
edition = "2021"
publish = false

[dependencies]
petgraph = "0.6"
regex = "1"
path-slash = "*"
url = "2"
rust_lsp = "*"
gl = "*"
serde = { version = "1", features = ["derive"] }
serde_json = "1"
slog = "2"
slog-scope = "4"
lazy_static = "1"
