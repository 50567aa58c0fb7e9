[package]
name = "axconfig_gen"
version = "0.1.0"
edition = "2021"
publish = false

[dependencies]
toml_edit = "0.22"
clap = { version = "4", features = ["derive"] }
