[package]
name = "typed-generational-arena"
version = "0.1.0"
edition = "2021"

[dependencies]
num-traits = "0.2"
serde = { version = "1", features = ["derive"] }
