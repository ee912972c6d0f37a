[package]
name = "tile_painting"
version = "0.1.0"
edition = "2021"
publish = false

[dependencies]
bevy = { version = "0.8", default-features = false, features = ["bevy_core_pipeline", "bevy_render", "bevy_sprite", "bevy_winit", "x11"] }
image = { version = "0.24", default-features = false, features = ["png"] }
