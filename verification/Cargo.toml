[package]
name = "textspan"
version = "0.5.1"
edition = "2021"
publish = false

[dependencies]
tokenizations = "*"
pyo3 = { version = "*", features = ["abi3-py310"] }

[dev-dependencies]
quickcheck = { version = "*", default-features = false }
