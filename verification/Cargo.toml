[package]
name = "turtle_graphics"
version = "0.1.0"
edition = "2021"
publish = false

[dependencies]
pixels = "0.13"
winit = { version = "0.28", default-features = false, features = ["x11"] }
