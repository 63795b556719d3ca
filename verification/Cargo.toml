[package]
name = "oal_compiler"
version = "0.1.0"
edition = "2021"
publish = false

[dependencies]
indexmap = "=2.14.2"
petgraph = "=0.8.3"
serde_yaml = "=0.9.34"
lsp-types = "=0.97.0"
url = "2"
anyhow = "1"
serde = { version = "1", features = ["derive"] }
toml = "*"
clap = { version = "4", features = ["derive"] }
