[package]
name = "tiling_layout"
version = "0.1.0"
edition = "2021"
publish = false

[dependencies]
id_tree = "1.8"
smithay = { version = "*", default-features = false, features = ["desktop", "wayland_frontend"] }
