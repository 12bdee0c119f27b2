[package]
name = "goosberry"
version = "0.1.0"
edition = "2021"
publish = false

[dependencies]
bytemuck = "1"
downcast-rs = "1.2"
image = { version = "0.24", default-features = false }
nalgebra = "0.31"
num-traits = "0.2"
raw-window-handle = "0.4"
tokio = { version = "1", features = ["rt-multi-thread", "macros"] }
tuple_unpack = "*"
wgpu = "0.13"
winit = "0.27"
