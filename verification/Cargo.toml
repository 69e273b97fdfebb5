[package]
name = "circle_stark"
version = "0.1.0"
edition = "2021"
publish = false

[dependencies]
lambdaworks-math = "*"
sha256 = { version = "*", default-features = false }
ndarray = "*"
