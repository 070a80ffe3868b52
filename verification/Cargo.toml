[package]
name = "recents"
version = "0.1.0"
edition = "2021"
publish = false

[dependencies]
anyhow = "1"
fontdb = "*"
toml_edit = "=0.22.27"
tracing = "0.1"
url = "=2.5.8"
winit = "*"
