[package]
name = "maze_solver"
version = "0.1.0"
edition = "2021"
publish = false

[dependencies]
clap = { version = "*", features = ["derive"] }
eyre = "*"
futures = "*"
log = "*"
r2r = "*"
tokio = { version = "*", features = ["full"] }
