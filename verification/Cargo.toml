[package]
name = "fsm_utils"
version = "0.1.0"
edition = "2021"
publish = false

[dependencies]
rustc-hash = "=2.1.3"
fixedbitset = "=0.5.7"
lru = "=0.19.0"
smallvec = "=1.16.4"
once_cell = "=1.21.4"
libc = "=0.2.191"
anyhow = "=1.0.104"
serde = { version = "=1.0.229", features = ["derive"] }
serde_json = "=1.0.154"
zmq = "0.10"
