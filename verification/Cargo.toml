[package]
name = "subtitle_renamer"
version = "0.1.0"
edition = "2021"
publish = false

[dependencies]
regex = "=1.13.1"
unicode-normalization = "=0.1.26"
sha2 = "=0.11.1"
serde = { version = "=1.0.229", features = ["derive"] }
toml = "=1.1.8"
rusqlite = { version = "=0.41.1", features = ["bundled"] }
anyhow = "=1.0.104"
thiserror = "=2.0.21"
dirs = "=7.0.0"
eframe = { version = "=0.37.0", default-features = false, features = ["glow", "default_fonts", "x11"] }
egui = "=0.37.0"
egui_extras = "=0.37.0"
rfd = { version = "=0.17.2", default-features = false, features = ["xdg-portal"] }
