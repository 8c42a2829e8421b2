[package]
name = "ferro"
version = "0.1.0"
edition = "2021"
publish = false

[dependencies]
unicode-segmentation = "*"
termion = "*"
signal-hook = "*"
termbg = "*"
lazy_static = "*"
shunting = "*"
serde = { version = "*", features = ["derive"] }
serde_json = "*"
