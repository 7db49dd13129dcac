[package]
name = "psd_viewer"
version = "0.1.0"
edition = "2021"
publish = false

[dependencies]
eframe = { version = "*", default-features = false, features = ["default_fonts", "glow", "wayland", "x11"] }
libc = "0.2"
memmap2 = "0.9"
raw-window-handle = "0.6"
rfd = "*"
wayland-client = { version = "0.31", features = ["system"] }
winit = "0.30"
