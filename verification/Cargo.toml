[package]
name = "rrt_merci"
version = "0.1.0"
edition = "2021"
publish = false

[dependencies]
rand = "=0.8.8"
ncollide2d = "=0.33.0"
serde = { version = "=1.0.229", features = ["derive"] }
serde_json = "=1.0.154"
