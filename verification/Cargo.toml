[package]
name = "cluster_resolution"
version = "0.1.0"
edition = "2021"
publish = false

[dependencies]
clap = { version = "4", features = ["derive"] }
compute = "*"
csv = "1"
getset = "0.1"
plotters = { version = "0.3", default-features = false, features = ["svg_backend", "line_series"] }
serde = { version = "1", features = ["derive"] }
serde_json = "1"
