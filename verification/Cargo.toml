[package]
name = "fauxgen_core"
version = "0.1.0"
edition = "2021"
publish = false

[dependencies]
anyhow = "=1.0.104"
log = "=0.4.35"
rustpython-ast = { version = "=0.4.0", features = ["visitor"] }
rustpython-parser = "=0.4.0"
rustpython-parser-core = "=0.4.0"
