[package]
name = "bcr"
version = "0.1.0"
edition = "2021"
publish = false

[dependencies]
anyhow = "1"
clap = { version = "4", features = ["derive"] }
libc = "0.2"
nix = { version = "0.30", features = ["net", "socket", "user", "time", "fs", "poll", "uio"] }
pnet = "0.35"
thiserror = "1"
