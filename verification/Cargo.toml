[package]
name = "sandtris"
version = "0.1.0"
edition = "2021"
publish = false

[dependencies]
nanorand = "*"
piston_window = "*"
image = "*"
imageproc = "*"
lru = "*"
