[package]
name = "i3more"
version = "0.1.0"
edition = "2021"
publish = false

[dependencies]
nix = { version = "=0.29.0", features = ["socket", "uio", "event", "user"] }
serde = { version = "=1.0.229", features = ["derive"] }
serde_json = "=1.0.154"
dirs = "=5.0.1"
libc = "=0.2.191"
log = "=0.4.35"
env_logger = "=0.11.11"
lru = "=0.12.5"
x11rb = "=0.13.2"
