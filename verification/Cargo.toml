[package]
name = "ntex_accept"
version = "0.1.0"
edition = "2021"
rust-version = "1.95"
publish = false

[dependencies]
log = "=0.4.35"
ntex-polling = "3.11"
ntex-rt = "3.12"
ntex-util = "3.6"
oneshot = { version = "=0.2.1", features = ["std"] }
