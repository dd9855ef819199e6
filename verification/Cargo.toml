[package]
name = "tower_defense"
version = "0.1.0"
edition = "2021"
publish = false

[dependencies]
bevy = { version = "=0.10.1", default-features = false, features = ["bevy_asset", "bevy_core_pipeline", "bevy_pbr", "bevy_render", "bevy_winit", "x11"] }
bevy_framepace = { version = "0.12", default-features = false }
bevy_mod_picking = { version = "0.12", default-features = false }
rand = "=0.8.8"
