[package]
name = "drsat"
version = "0.1.0"
edition = "2021"
publish = false

[dependencies]
bzip2 = "*"
clap = { version = "4", features = ["derive"] }
clap_complete = "4"
flate2 = "*"
thiserror = "*"
time = "0.1"
xz2 = "*"
zstd = "*"
