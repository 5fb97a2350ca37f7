[package]
name = "rust_nv"
version = "0.1.0"
edition = "2021"
publish = false

[dependencies]
pulldown-cmark = { version = "0.12", default-features = false, features = ["html"] }
chrono = "0.4"
catppuccin = "2"
serde = { version = "1", features = ["derive"] }
serde_json = "1"
log = "0.4"
env_logger = { version = "0.11", default-features = false }
dirs = "6"
notify = { version = "8", default-features = false }
opener = { version = "0.7", features = ["reveal"] }
arboard = { version = "3", default-features = false }
rfd = "0.15"
chrono-humanize = "0.2"
egui = "0.33"
eframe = { version = "0.33", default-features = false, features = ["default_fonts", "glow", "persistence", "x11"] }
