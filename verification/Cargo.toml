[package]
name = "mechanic_core"
version = "0.1.0"
edition = "2021"
publish = false

[dependencies]
bevy_math = "*"
serde = { version = "1", features = ["derive"] }
thiserror = "2"
