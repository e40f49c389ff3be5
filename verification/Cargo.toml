[package]
name = "credstore"
version = "0.1.0"
edition = "2021"
publish = false

[dependencies]
uuid = { version = "=1.27.0", features = ["v4"] }
sha1 = "=0.10.7"
rand = "=0.8.8"
chrono = "=0.4.45"
keepass = { version = "=0.15.0", features = ["save_kdbx4"] }
secrecy = "=0.8.0"
rust-argon2 = "=3.0.0"
