[package]
name = "smart_archive"
version = "0.1.0"
edition = "2021"
publish = false

[dependencies]
anyhow = "1"
clap = { version = "4", features = ["derive"] }
glob = "0.3"
inquire = "0.7"
log = "0.4"
log4rs = "1"
md5 = "0.7"
rayon = "1"
thiserror = "2"
walkdir = "2"
