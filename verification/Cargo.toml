[package]
name = "stamp_folding"
version = "0.1.0"
edition = "2021"
publish = false

[dependencies]
rayon = "*"
wgpu = "24"
bytemuck = { version = "*", features = ["derive"] }
futures-intrusive = "*"
