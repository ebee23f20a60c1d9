[package]
name = "my_magic_adventure"
version = "0.1.0"
edition = "2021"
publish = false

[dependencies]
rand = "=0.8.5"
noise = "0.9"
bevy = { version = "0.15", default-features = false, features = ["bevy_asset", "bevy_color", "bevy_core_pipeline", "bevy_pbr", "bevy_render", "bevy_sprite", "bevy_state", "bevy_text", "bevy_ui", "bevy_window"] }
