[package]
name = "dvcs_wye"
version = "0.1.0"
edition = "2021"
publish = false

[dependencies]
chrono = "=0.4.45"
clap = { version = "=4.6.7", features = ["derive"] }
diffy = "=0.4.2"
glob = "0.3"
serde = { version = "=1.0.229", features = ["derive"] }
serde_json = "=1.0.154"
sha2 = "=0.10.9"
users = "=0.11.0"

[dev-dependencies]
