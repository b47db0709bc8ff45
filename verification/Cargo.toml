[package]
name = "lath"
version = "0.1.0"
edition = "2021"
publish = false

[dependencies]
winit = "0.30"
softbuffer = "0.4"
tiny-skia = "0.11"
ab_glyph = "0.2"
