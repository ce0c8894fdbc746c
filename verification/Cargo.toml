[package]
name = "crabsplit"
version = "0.1.0"
edition = "2021"
publish = false

[dependencies]
chrono = { version = "*", default-features = false, features = ["std"] }
chrono-tz = "*"
eframe = { version = "*", default-features = false, features = ["glow", "x11", "default_fonts"] }
