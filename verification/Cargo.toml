[package]
name = "slink"
version = "0.1.0"
edition = "2021"
publish = false

[dependencies]
anyhow = "*"
base64 = "*"
blake3 = "*"
chrono = "*"
dirs = "*"
nix = { version = "*", features = ["user", "fs"] }
prettytable-rs = "*"
rusqlite = { version = "*", features = ["bundled", "chrono"] }
serde = { version = "*", features = ["derive"] }
structopt = "*"
tempfile = "*"
toml = "*"
users = "*"
uuid = { version = "*", features = ["v4"] }
