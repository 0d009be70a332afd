[package]
name = "rust_examples"
version = "0.1.0"
edition = "2021"
publish = false

[dependencies]
derive_more = { version = "*", features = ["add", "mul"] }

[dev-dependencies]
quickcheck = "*"
