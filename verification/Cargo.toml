[package]
name = "quicksweeper"
version = "0.1.0"
edition = "2021"
publish = false

[dependencies]
rand = "0.8"
arrayvec = "0.7"
gridly = "*"
gridly_grids = "*"
itertools = "0.10"
bevy_time = "0.9"
clap = { version = "4", features = ["derive"] }
serde = { version = "1", features = ["derive"] }
rmp-serde = "1"
