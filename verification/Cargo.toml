[package]
name = "overlook"
version = "0.1.0"
edition = "2021"
publish = false

[dependencies]
serde_json = "1"
eframe = { version = "0.37", default-features = false, features = ["default_fonts", "glow", "x11"] }
rfd = { version = "0.17", default-features = false, features = ["gtk3"] }
