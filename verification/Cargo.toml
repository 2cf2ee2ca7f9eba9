[package]
name = "tile_collapse"
version = "0.1.0"
edition = "2021"
publish = false

[dependencies]
oorandom = "11"
image = { version = "0.24", default-features = false, features = ["png", "jpeg", "bmp", "gif"] }
