[package]
name = "addie_auth"
version = "0.1.0"
edition = "2021"
publish = false

[dependencies]
keyring = { version = "=3.6.3", default-features = false }

[dev-dependencies]
serde_json = "=1.0.151"
url = "=2.5.8"
urlencoding = "=2.1.3"
