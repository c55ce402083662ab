[package]
name = "value_table"
version = "0.1.0"
edition = "2021"
publish = false

[dependencies]
serde_json = "=1.0.154"
toml = "=0.8.23"
yaml-rust = "=0.4.5"
thiserror = "=1.0.69"
