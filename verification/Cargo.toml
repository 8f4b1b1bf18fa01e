[package]
name = "mandelbrot"
version = "0.1.0"
edition = "2021"
publish = false

[dependencies]
image = "0.13.0"
num = "0.4"
rayon = "1"
