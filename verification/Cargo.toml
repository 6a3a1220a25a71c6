[package]
name = "grid_world"
version = "0.1.0"
edition = "2021"
publish = false

[dependencies]
line_2d = "=0.5.3"
rand = "*"
