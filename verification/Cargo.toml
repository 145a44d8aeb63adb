[package]
name = "gts_port_cfg"
version = "0.1.0"
edition = "2021"
publish = false

[dependencies]
clap = "2.33"
itertools = "0.10"
serde = { version = "1.0", features = ["derive"] }
serde_yaml = "0.8"
