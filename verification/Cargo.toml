[package]
name = "tg_render_engine"
version = "0.1.0"
edition = "2021"
publish = false

[dependencies]
smallvec = "1"
nalgebra-glm = "*"
bytemuck = "1"
