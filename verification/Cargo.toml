[package]
name = "snowglobe"
version = "0.1.0"
edition = "2021"
publish = false

[dependencies]
rand = "0.8"
image = { version = "0.24", default-features = false, features = ["png"] }
pixels = "0.11"
winit = "0.27"
winit_input_helper = "0.13"
env_logger = "0.10"
log = "0.4"
