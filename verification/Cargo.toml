[package]
name = "benzened"
version = "1.0.0"
edition = "2021"
publish = false

[dependencies]
android_logger = "*"
elf = "*"
libc = "0.2"
log = "0.4"
pound = "*"
serde = { version = "1", features = ["derive"] }
serde_json = "1"
