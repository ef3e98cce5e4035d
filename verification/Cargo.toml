[package]
name = "pantools"
version = "0.1.0"
edition = "2021"
publish = false

[dependencies]
bstr = "1"
chrono = "0.4"
clap = { version = "4", features = ["derive"] }
env_logger = "0.10"
lazy_static = "1"
libc = "0.2"
log = "0.4"
thiserror = "1"
