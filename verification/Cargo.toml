[package]
name = "rowan"
version = "0.17.0"
edition = "2021"
publish = false

[dependencies]
countme = "3"
ecow = "*"
hashbrown = "*"
rustc-hash = "*"
serde = { version = "1", features = ["derive"] }
text-size = "1.1"
thiserror = "*"
triomphe = "0.1"

[dev-dependencies]
serde_json = "1"
