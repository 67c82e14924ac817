[package]
name = "ir_pipeline"
version = "0.1.0"
edition = "2021"
publish = false

[dependencies]
clang = "*"
serde = { version = "*", features = ["derive"] }
serde_json = "*"

[dev-dependencies]
prost = "*"
