[package]
name = "safe_path"
version = "0.1.0"
edition = "2021"
publish = false

[dependencies]
camino = "*"

[dev-dependencies]
lexiclean = "*"
path-clean = "*"
