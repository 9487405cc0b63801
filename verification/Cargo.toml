[package]
name = "obj_core"
version = "1.0.0"
edition = "2021"
publish = false

[dependencies]
crc32c = "=0.6.9"
getrandom = "0.2"
heapless = "=0.8.0"
libc = "=0.2.191"
lz4_flex = { version = "=0.11.6", default-features = false, features = ["std", "safe-encode", "safe-decode"] }
rand = "=0.9.5"
rand_chacha = "=0.9.0"
rustix = { version = "=1.1.6", features = ["fs"] }
serde = { version = "=1.0.229", features = ["derive"] }
zeroize = "=1.9.1"

[dev-dependencies]
postcard = { version = "=1.1.3", features = ["alloc"] }
tempfile = "=3.27.0"
