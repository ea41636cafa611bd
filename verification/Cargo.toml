[package]
name = "mshdbg"
version = "0.1.0"
edition = "2021"
publish = false

[dependencies]
color-eyre = "0.6"
eframe = { version = "0.29", default-features = false, features = ["default_fonts", "glow", "x11"] }
tracing = "0.1"
tracing-error = "0.2"
tracing-subscriber = { version = "0.3", features = ["env-filter"] }
