[package]
name = "throttle"
version = "0.1.0"
edition = "2021"
publish = false

[dependencies]
actix-web = { version = "4", default-features = false, features = ["macros"] }
humantime-serde = "1"
log = "0.4"
serde = { version = "1", features = ["derive"] }
thiserror = "1"
