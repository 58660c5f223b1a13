[package]
name = "iron_carrier"
version = "0.1.0"
edition = "2021"
publish = false

[dependencies]
bincode = "1.3"
filetime = "0.2"
log = "0.4"
serde = { version = "1", features = ["derive"] }
tokio = { version = "1", default-features = false, features = ["fs"] }
