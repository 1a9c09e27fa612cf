[package]
name = "dyft"
version = "0.1.0"
edition = "2021"
publish = false

[dependencies]
anyhow = "1"
arrow = "*"
clap = { version = "4", features = ["derive"] }
geo = "*"
get-size = { version = "*", features = ["derive"] }
indexmap = "2"
itertools = "*"
lazy_static = "1"
nalgebra = "*"
num-traits = "0.2"
parquet = "*"
rand = "0.8"
rmp-serde = "1"
serde = { version = "1", features = ["derive"] }
serde_json = "1"
sysinfo = "0.30"
toml = "*"
