[package]
name = "nrip"
version = "0.1.0"
edition = "2021"
publish = false

[dependencies]
anyhow = "*"
base64 = "*"
chrono = "*"
clap = { version = "*", features = ["derive"] }
dirs = "*"
fd-lock = "*"
fs-err = "*"
libc = "*"
rand = "*"
rustix = { version = "*", features = ["fs"] }
tempfile = "*"
yansi = "*"
