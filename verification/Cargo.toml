[package]
name = "lumberjack"
version = "0.1.0"
edition = "2021"
publish = false

[dependencies]
half = "=2.7.1"
fastrand = "=2.5.0"
indexmap = "=2.14.2"
csv = "=1.4.0"
serde = { version = "=1.0.229", features = ["derive"] }
serde_json = "=1.0.154"
clap = { version = "=4.6.7", features = ["derive"] }
color-eyre = "=0.6.5"
aligned-vec = "=0.6.4"
bytesize = "=2.7.0"
heapless = "=0.9.3"
yaml_serde = "*"
