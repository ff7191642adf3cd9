[package]
name = "xberg"
version = "1.0.0"
edition = "2021"
publish = false

[dependencies]
ahash = "=0.8.12"
async-trait = "=0.1.92"
encoding_rs = "=0.8.44"
once_cell = "=1.21.4"
quick-xml = "=0.42.0"
regex = "=1.13.1"
rmcp = { version = "=3.8.0", default-features = false }
serde = { version = "=1.0.229", features = ["derive"] }
serde_json = "=1.0.154"
serde_yaml_ng = "=0.10.0"
tokio = { version = "=1.54.1", features = ["rt"] }
toml = "*"
tree-sitter-language-pack = "=1.23.1"
whatlang = "=0.18.0"
zip = { version = "=9.2.2", default-features = false, features = ["deflate"] }
