[package]
name = "poker_puzzle"
version = "0.1.0"
edition = "2021"
publish = false

[dependencies]
rand = "=0.10.3"
bevy = { version = "=0.19.1", default-features = false, features = ["std", "multi_threaded", "bevy_asset", "bevy_camera", "bevy_color", "bevy_log", "bevy_mesh", "bevy_picking", "ui_picking", "bevy_sprite_render", "bevy_text", "default_font", "bevy_ui", "bevy_ui_render", "bevy_window"] }
