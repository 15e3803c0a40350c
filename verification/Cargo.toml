[package]
name = "galahad2lcd"
version = "0.1.0"
edition = "2021"
publish = false

[dependencies]
byteorder = "1"
image = { version = "0.25", default-features = false }
anyhow = "1"
clap = { version = "4", features = ["derive"] }
ctrlc = "3"
rusb = { version = "0.9", features = ["vendored"] }
ffmpeg-next = "7"
