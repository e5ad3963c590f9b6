[package]
name = "matcha_ecs_widgets"
version = "0.1.0"
edition = "2021"
publish = false

[dependencies]
image = { version = "0.25", default-features = false, features = ["png", "jpeg"] }
fxhash = "0.2"
