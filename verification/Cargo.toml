[package]
name = "chef"
version = "0.1.0"
edition = "2021"
publish = false

[dependencies]
clap = { version = "=4.6.7", features = ["derive"] }
crc32fast = "=1.5.4"
dirs = "=5.0.1"
dunce = "=1.0.5"
flate2 = "=1.1.10"
hex = "=0.4.3"
log = "=0.4.35"
semver = "=1.0.28"
serde = { version = "=1.0.229", features = ["derive"] }
serde_json = "=1.0.154"
sha2 = "=0.10.9"
simplelog = { version = "=0.12.2", features = ["local-offset"] }
tar = "=0.4.46"
tempfile = "=3.27.0"
ureq = "=2.12.1"
zip = { version = "=2.6.1", default-features = false, features = ["deflate"] }
