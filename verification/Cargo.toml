[package]
name = "jview"
version = "0.1.0"
edition = "2021"
publish = false

[dependencies]
libc = "0.2"
memmap2 = "0.9"
ratatui = "0.29"
regex = "1"

[dev-dependencies]
serde_json = "1"
