[package]
name = "preql_import_resolver"
version = "0.1.0"
edition = "2021"
publish = false

[dependencies]
pathdiff = "*"
clap = { version = "*", features = ["derive"] }
serde = { version = "*", features = ["derive"] }
serde_json = "*"
