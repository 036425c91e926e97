[package]
name = "jacks_or_better"
version = "0.1.0"
edition = "2021"
publish = false

[dependencies]
rand = "0.9"
serde = { version = "1", features = ["derive"] }
eframe = { version = "*", default-features = false, features = ["glow", "default_fonts", "persistence", "x11"] }
rodio = { version = "*", default-features = false, features = ["playback"] }
