[package]
name = "ddnsfw"
version = "2.3.1"
edition = "2021"
publish = false

[dependencies]
libc = "0.2"
rustls = { version = "0.23", default-features = false, features = ["ring", "std", "tls12"] }
serde = { version = "1", features = ["derive"] }
ureq = { version = "2", default-features = false, features = ["tls", "json"] }
