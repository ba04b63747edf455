[package]
name = "photonical"
version = "0.1.0"
edition = "2021"
publish = false

[dependencies]
ggez = { version = "0.9", default-features = false }
hecs = "0.10"
image = "0.24"
mlua = { version = "0.10", features = ["lua54", "vendored"] }
rect_packer = "0.2"
serde = { version = "1", features = ["derive"] }
serde_json = "1"
toml = "0.8"
