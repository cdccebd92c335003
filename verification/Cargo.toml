[package]
name = "nod"
version = "0.1.0"
edition = "2021"
publish = false

[dependencies]
aes = "0.8"
bytes = "1"
cbc = "0.1"
crossbeam-channel = "0.5"
dyn-clone = "1"
zerocopy = { version = "0.8", features = ["alloc"] }
