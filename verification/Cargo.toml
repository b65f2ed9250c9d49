[package]
name = "jonnah_slicer"
version = "0.1.0"
edition = "2021"
publish = false

[dependencies]
num-rational = "=0.4.2"
base62 = "=2.2.6"
serde = { version = "=1.0.229", features = ["derive"] }
serde_json = "=1.0.154"
log = "=0.4.35"
wavers = "=1.5.1"
midi-reader-writer = { version = "=0.1.3", features = ["engine-midly-0-5"] }
pathdiff = "=0.2.3"
clap = { version = "=4.6.7", features = ["derive"] }
egui = "=0.37.0"
eframe = { version = "=0.37.0", default-features = false, features = ["default_fonts", "glow", "x11", "persistence"] }
egui_extras = { version = "=0.37.0", features = ["all_loaders"] }
cpal = "=0.18.2"
bms-rs = "=1.0.0"
