[package]
name = "voxel_core"
version = "0.1.0"
edition = "2021"
publish = false

[dependencies]
glam = { version = "*", default-features = false, features = ["libm"] }
libm = "*"
uefi = { version = "*", features = ["alloc"] }
uefi-raw = "*"
