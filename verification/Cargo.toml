[package]
name = "solc_toolchain"
version = "0.1.0"
edition = "2021"
publish = false

[dependencies]
serde_json = "1"
sha2 = "0.10"
semver = "1"
anyhow = "1"
dirs = "*"
which = "*"
once_cell = "1"
lsp-types = "*"
pathdiff = "*"
regex = "1"
serde = "1"
reqwest = { version = "*", default-features = false, features = ["blocking"] }
