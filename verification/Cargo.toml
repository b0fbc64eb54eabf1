[package]
name = "migration"
version = "0.1.0"
edition = "2021"
publish = false

[dependencies]
drm-fourcc = "2"
anyhow = "1"
log = "0.4"
serde = { version = "1", features = ["derive"] }
serde_json = "1"
kvm-ioctls = "*"
kvm-bindings = "*"
