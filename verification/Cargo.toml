[package]
name = "wormod"
version = "0.1.0"
edition = "2021"
publish = false

[dependencies]
sysinfo = "*"
unicode-segmentation = "1"
clap = { version = "4", features = ["derive"] }
