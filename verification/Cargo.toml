[package]
name = "marblecomic"
version = "0.1.0"
edition = "2021"
publish = false

[dependencies]
vec_map = "*"
serde = { version = "*", features = ["derive"] }
serde_json = "*"
