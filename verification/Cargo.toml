[package]
name = "menur"
version = "0.1.0"
edition = "2021"
publish = false

[dependencies]
gtk4 = "0.9"
gtk4-layer-shell = "0.4"
gdk4-wayland = { version = "0.9", features = ["wayland_crate"] }
smithay-client-toolkit = "0.19"
