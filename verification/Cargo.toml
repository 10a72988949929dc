[package]
name = "maze_raycaster"
version = "0.1.0"
edition = "2021"
publish = false

[dependencies]
raylib = "=6.0.0"
image = { version = "=0.25.10", default-features = false, features = ["png", "jpeg"] }
