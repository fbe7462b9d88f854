[package]
name = "bullets_on_wheels"
version = "0.1.0"
edition = "2021"
publish = false

[dependencies]
bevy_app = { version = "=0.19.1", default-features = false }
bevy_asset = { version = "=0.19.1", default-features = false }
bevy_ecs = { version = "=0.19.1", default-features = false }
bevy_log = { version = "=0.19.1", default-features = false }
bevy_math = { version = "=0.19.1", default-features = false }
bevy_state = "=0.19.1"
bevy_time = { version = "=0.19.1", default-features = false }
bevy_transform = { version = "=0.19.1", default-features = false }
godot = "=0.5.5"
godot-bevy = { version = "=0.12.0", default-features = false, features = ["godot_bevy_log"] }
image = { version = "=0.25.10", default-features = false, features = ["png"] }
rand = "=0.9.5"
