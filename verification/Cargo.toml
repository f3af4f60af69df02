[package]
name = "nice_map_generator"
version = "0.1.0"
edition = "2021"
publish = false

[dependencies]
rand = "0.8"
fltk = "1"
grid = "*"
image = { version = "0.25", default-features = false, features = ["png", "jpeg", "bmp", "webp"] }
