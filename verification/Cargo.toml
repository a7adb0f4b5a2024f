[package]
name = "ulangc"
version = "0.1.0"
edition = "2021"
publish = false

[dependencies]
env_logger = { version = "0.11", default-features = false }
log = "0.4"
thiserror = "1.0"
