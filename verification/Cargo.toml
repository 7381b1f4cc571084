[package]
name = "laser_halftone"
version = "0.1.0"
edition = "2021"
publish = false

[dependencies]
image = { version = "0.25", default-features = false, features = ["png", "jpeg", "webp", "bmp"] }
eframe = { version = "0.29", default-features = false, features = ["default_fonts", "glow", "x11"] }
rfd = "0.15"
