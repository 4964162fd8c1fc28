[package]
name = "bevy_vm"
version = "0.1.0"
edition = "2021"
publish = false

[dependencies]
bevy_color = "0.18"
bevy_ecs = { version = "0.18", features = ["bevy_reflect"] }
bevy_reflect = "0.18"
bevy_time = "0.18"
rand = "0.9"
rand_chacha = { version = "0.9", features = ["os_rng"] }
rhai = { version = "1", features = ["internals"] }
ron = "*"
serde = { version = "1", features = ["derive"] }
serde_json = "1"
thiserror = "2"
tracing = "0.1"
