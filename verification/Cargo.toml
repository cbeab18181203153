[package]
name = "n0qlog"
version = "0.1.0"
edition = "2021"
publish = false

[dependencies]
convert_case = "*"
qlog = "*"
serde = { version = "*", features = ["derive"] }
serde_json = "*"
sonic-rs = "*"
rayon = "*"
anyhow = "*"
tracing = "*"
tracing-subscriber = { version = "*", features = ["env-filter"] }
clap = { version = "*", features = ["derive"] }
eframe = { version = "*", default-features = false, features = ["glow", "x11", "default_fonts"] }
egui = "*"
egui_plot = "*"
image = { version = "*", default-features = false, features = ["png"] }
rfd = "*"
