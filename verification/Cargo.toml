[package]
name = "ast_outline"
version = "0.1.0"
edition = "2021"
publish = false

[dependencies]
serde_json = "1"
toml_edit = "0.22"
