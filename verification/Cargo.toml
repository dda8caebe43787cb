[package]
name = "fsman"
version = "0.1.0"
edition = "2021"
publish = false

[dependencies]
serde_json = "1"
lsp-server = "0.7"
lsp-types = "0.97"
neon = "*"
zed_extension_api = "*"
