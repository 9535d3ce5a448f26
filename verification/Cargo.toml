[package]
name = "pendulum_sim"
version = "0.1.0"
edition = "2021"
publish = false

[dependencies]
eframe = { version = "*", default-features = false, features = ["default_fonts", "glow", "x11"] }
enum-map = "*"
minifb = "*"
rayon = "*"
rtrb = "*"
