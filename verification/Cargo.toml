[package]
name = "opencode-model-config"
version = "0.1.0"
edition = "2021"
publish = false

[dependencies]
serde_json = { version = "1", features = ["preserve_order"] }
eframe = { version = "0.31", default-features = false, features = ["default_fonts", "glow", "x11"] }
raw-window-handle = "0.6"
