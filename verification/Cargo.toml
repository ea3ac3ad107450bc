[package]
name = "sscg"
version = "0.1.0"
edition = "2021"
publish = false

[dependencies]
regex = "=1.13.1"
wlambda = { version = "=0.8.1", default-features = false, features = ["serde", "serde_json"] }
gdnative = "0.8"
sdl2 = { version = "0.34", features = ["ttf", "image", "gfx"] }
euclid = "0.20"
lazy_static = "1"
