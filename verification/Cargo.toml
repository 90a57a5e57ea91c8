[package]
name = "diagnostic_explorer_agent"
version = "0.1.0"
edition = "2021"
publish = false

[dependencies]
actix-web = { version = "4", default-features = false, features = ["macros"] }
base64 = "0.21"
bevy_app = { version = "0.12", default-features = false }
bevy_ecs = { version = "0.12", default-features = false }
bevy_utils = "0.12"
byteorder = "1"
crossbeam-channel = "0.5"
hashbrown = "0.14"
tracing = "0.1"
tracing-subscriber = "0.3"
