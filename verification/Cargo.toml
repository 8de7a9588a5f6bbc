[package]
name = "hivemind_state"
version = "0.1.0"
edition = "2021"
publish = false

[dependencies]
rust_decimal = { version = "*", features = ["maths"] }
heed = "*"
serde = { version = "*", features = ["derive"] }
