[package]
name = "hard_sync"
version = "0.1.0"
edition = "2021"
publish = false

[dependencies]
regex = "1"
sha2 = "0.10"
serde = { version = "1", features = ["derive"] }
serde_json = "1"
walkdir = "2"
fs_extra = "1"
chrono = "0.4"
colored = "2"
crossterm = "*"
env_logger = "*"
log = "0.4"
fli = "*"
