[package]
name = "kruskal_maze"
version = "0.1.0"
edition = "2021"
publish = false

[dependencies]
clap = { version = "4", features = ["derive"] }
grid = "0.9"
rand = "0.8"
