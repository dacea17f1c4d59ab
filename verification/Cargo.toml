[package]
name = "acid-store"
version = "0.1.0"
edition = "2021"
publish = false

[dependencies]
blake2 = "=0.8.1"
blake3 = { version = "=1.8.7", features = ["pure"] }
flate2 = "=1.1.10"
fuse = "=0.3.1"
lz4 = "=1.28.1"
nix = "=0.17.0"
once_cell = "=1.21.4"
relative-path = "=1.9.3"
rmp-serde = "1"
serde = { version = "=1.0.229", features = ["derive"] }
time = "=0.1.45"
uuid = { version = "=0.8.2", features = ["v4"] }
xattr = "1"
xz2 = "=0.1.7"
