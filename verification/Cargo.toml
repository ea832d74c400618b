[package]
name = "are_world"
version = "0.1.0"
edition = "2021"
publish = false

[dependencies]
rand = "0.8"
serde = { version = "1", features = ["derive"] }
derive_more = "0.99"
plotters = { version = "0.3", default-features = false, features = ["bitmap_backend"] }
