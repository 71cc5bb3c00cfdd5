[package]
name = "grid_puzzles"
version = "0.1.0"
edition = "2021"
publish = false

[dependencies]
regex = "1"
rand = "0.8"
env_logger = "0.11"
eframe = { version = "0.31", default-features = false, features = ["glow", "default_fonts", "x11"] }
