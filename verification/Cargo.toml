[package]
name = "coin_drop"
version = "0.1.0"
edition = "2021"
publish = false

[dependencies]
avian3d = { version = "0.2", default-features = false, features = ["3d", "f32", "parry-f32", "debug-plugin"] }
bevy = { version = "0.15", default-features = false, features = ["bevy_asset", "bevy_color", "bevy_core_pipeline", "bevy_gizmos", "bevy_pbr", "bevy_render", "bevy_scene", "bevy_window"] }
currency = "0.4"
rand = "0.8"
