[package]
name = "serport"
version = "0.1.0"
edition = "2021"
publish = false

[dependencies]
rand = "0.8"
num = "0.4"
serialport = { version = "4", default-features = false }
eframe = { version = "0.23", default-features = false, features = ["glow", "default_fonts"] }
