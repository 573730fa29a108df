[package]
name = "rusty_sand"
version = "0.1.0"
edition = "2021"
publish = false

[dependencies]
bevy = { version = "0.12", default-features = false, features = ["bevy_asset"] }
fastrand = "2"
ron = "0.8"
serde = { version = "1", features = ["derive"] }
thiserror = "1"
