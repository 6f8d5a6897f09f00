[package]
name = "choss"
version = "0.1.0"
edition = "2021"
publish = false

[dependencies]
bevy = { version = "0.6", default-features = false, features = ["render", "bevy_winit", "png", "bevy_audio", "vorbis", "x11"] }
itertools = "=0.10.5"
rand = "=0.8.8"
