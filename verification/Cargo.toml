[package]
name = "playout"
version = "0.1.0"
edition = "2021"
publish = false

[dependencies]
anyhow = "1"
clap = { version = "4", features = ["derive"] }
env_logger = "*"
ffmpeg-next = "*"
glob = "0.3"
log = "0.4"
sdl2 = { version = "*", features = ["unsafe_textures"] }
