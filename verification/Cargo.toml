[package]
name = "box_arena"
version = "0.1.0"
edition = "2021"
publish = false

[dependencies]
avian2d = "=0.4.1"
bevy = { version = "=0.17.3", default-features = false, features = ["std", "multi_threaded", "bevy_window", "bevy_sprite", "bevy_sprite_render", "bevy_ui", "bevy_ui_render", "bevy_text", "default_font"] }
rand = "=0.8.8"
