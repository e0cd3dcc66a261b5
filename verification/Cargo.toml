[package]
name = "moenarch-geo-grid"
version = "0.1.0"
edition = "2021"
publish = false

[dependencies]
h3o = { version = "*", features = ["geo"] }
geo = "*"
serde = { version = "1", features = ["derive"] }
