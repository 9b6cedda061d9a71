[package]
name = "game_server"
version = "0.1.0"
edition = "2021"
publish = false

[dependencies]
bevy = { version = "0.8", default-features = false, features = ["render", "bevy_winit", "x11"] }
bevy-inspector-egui = { version = "0.12", default-features = false }
tokio = { version = "1", features = ["rt-multi-thread", "sync", "time"] }
