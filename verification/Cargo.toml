[package]
name = "frame_factor"
version = "0.1.0"
edition = "2021"
publish = false

[dependencies]
anyhow = "=1.0.104"
bevy = { version = "=0.5.0", default-features = false, features = ["render", "serialize"] }
bevy_ecs = "=0.5.0"
bevy_rapier2d = "=0.9.0"
bincode = "=1.3.3"
clap = "=3.0.0-beta.2"
geo = "=0.18.0"
itertools = "=0.10.5"
ron = "=0.6.6"
serde = { version = "=1.0.229", features = ["derive"] }
