[package]
name = "chip8"
version = "0.1.0"
edition = "2021"
publish = false

[dependencies]
rand = "=0.9.5"
sdl2 = { version = "=0.38.0", features = ["unsafe_textures"] }
clap = { version = "=4.6.7", features = ["derive"] }
