[package]
name = "tracking_numbers"
version = "0.1.0"
edition = "2021"
publish = false

[dependencies]
pcre2 = "0.2"
serde = { version = "1", features = ["derive"] }
serde_json = "1"
include_dir = "0.7"
lazy_static = "1"
log = "0.4"
