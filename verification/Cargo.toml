[package]
name = "world_gen"
version = "0.1.0"
edition = "2021"
publish = false

[dependencies]
delaunator = "1"
rand = "0.8"
image = { version = "0.25", default-features = false, features = ["png"] }
imageproc = { version = "0.25", default-features = false }
gif = "0.13"
