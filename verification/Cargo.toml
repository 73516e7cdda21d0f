[package]
name = "mandelbrot"
version = "0.1.0"
edition = "2021"
publish = false

[dependencies]
image = { version = "0.22", default-features = false, features = ["png_codec"] }
num = "0.4"
rayon = "1"
tetra = { version = "0.6", default-features = false }
