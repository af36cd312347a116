[package]
name = "archiver"
version = "0.1.0"
edition = "2021"
publish = false

[dependencies]
anyhow = "1"
base64 = "0.22"
clap = { version = "4", features = ["derive"] }
crossterm = "0.28"
csv = "1"
image = { version = "0.25", default-features = false, features = ["png", "jpeg"] }
indicatif = "0.17"
kdtree = "0.7"
md5 = "0.7"
postcard = { version = "1", features = ["use-std"] }
rand = "0.9"
ratatui = "0.29"
serde = { version = "1", features = ["derive"] }
tar = "0.4"
unicode-width = "0.2"
uuid = { version = "1", features = ["v4"] }
xz2 = "0.1"
