[package]
name = "pathfinder"
version = "0.1.0"
edition = "2021"
publish = false

[dependencies]
rand = "=0.8.8"
nalgebra = "=0.32.6"
egui = "0.23"
eframe = { version = "0.23", default-features = false, features = ["default_fonts", "glow"] }
