[package]
name = "schnuffel"
version = "0.1.0"
edition = "2021"
publish = false

[dependencies]
extism = "=1.30.0"
wasmtime = "=43.0.2"

[dev-dependencies]
wat = "=1.261.0"
