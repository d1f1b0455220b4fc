[package]
name = "todust"
version = "0.1.0"
edition = "2021"
publish = false

[dependencies]
anyhow = "1"
chrono = "0.4"
comfy-table = "*"
csv = "1"
githelper = "*"
glob = "0.3"
log = "0.4"
serde = { version = "1", features = ["derive"] }
simplelog = "*"
structopt = "0.3"
tempfile = "3"
text_io = "0.1"
toml = "0.5"
uuid = { version = "0.8", features = ["v4"] }
xdg = "2"
