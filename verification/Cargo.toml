[package]
name = "graph_scene"
version = "0.1.0"
edition = "2021"
publish = false

[dependencies]
rstar = "*"
uuid = { version = "*", features = ["v4"] }
druid = "0.7"
