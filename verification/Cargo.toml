[package]
name = "swirly_world"
version = "0.1.0"
edition = "2021"
publish = false

[dependencies]
ndarray = "0.15"
glium = "0.32"
glam = "0.24"
hecs = "0.9"
noise = "0.7"
rand = "0.8"
image = { version = "0.24", default-features = false, features = ["png"] }
