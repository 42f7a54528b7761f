[package]
name = "rusty_music"
version = "0.1.0"
edition = "2021"
publish = false

[dependencies]
rand = "0.9"
bevy = { version = "0.17", default-features = false, features = ["bevy_asset"] }
bevy_seedling = { version = "0.6", default-features = false }
