[package]
name = "cuutruyen_drm"
version = "0.1.0"
edition = "2021"
publish = false

[dependencies]
aes-gcm = "0.10"
spin = "0.9"
