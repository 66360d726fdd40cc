[package]
name = "ebbify"
version = "0.1.0"
edition = "2021"
publish = false

[dependencies]
chrono = { version = "=0.4.45", features = ["serde"] }
eframe = { version = "=0.22.0", default-features = false, features = ["glow"] }
egui = { version = "=0.22.0", default-features = false }
egui_extras = { version = "=0.22.0", default-features = false, features = ["datepicker"] }
rfd = "0.14"
serde = { version = "=1.0.229", features = ["derive"] }
serde_json = "=1.0.154"
thiserror = "=1.0.69"
zstd = "=0.12.4"
