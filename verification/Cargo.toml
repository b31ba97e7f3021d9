[package]
name = "flocking"
version = "0.1.0"
edition = "2021"
publish = false

[dependencies]
bevy = { version = "0.8", default-features = false, features = ["animation", "bevy_asset", "bevy_scene", "bevy_winit", "render", "png", "x11"] }
bevy_egui = { version = "0.15", default-features = false }
big-brain = "0.12"
rand = "0.8"
lerp = "0.4"
