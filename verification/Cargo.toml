[package]
name = "file-rescue"
version = "0.1.0"
edition = "2021"
publish = false

[dependencies]
anyhow = "1"
clap = { version = "4", features = ["derive"] }
ctrlc = "3"
indicatif = "0.17"
libc = "0.2"
memchr = "2"
thiserror = "2"
