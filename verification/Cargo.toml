[package]
name = "keymap_visualizer"
version = "0.1.0"
edition = "2021"
publish = false

[dependencies]
regex = "=1.13.1"
regex-syntax = "=0.8.11"
anyhow = "=1.0.104"
clap = { version = "=4.6.7", features = ["derive"] }
dialoguer = { version = "=0.11.0", default-features = false }
directories = "6"
eframe = { version = "0.29", default-features = false, features = ["glow", "default_fonts", "x11"] }
egui = { version = "=0.29.1", default-features = false }
serde = { version = "=1.0.229", features = ["derive"] }
serde_json = "=1.0.154"
