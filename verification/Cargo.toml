[package]
name = "fs_jcb"
version = "0.1.0"
edition = "2021"
publish = false

[dependencies]
bitvec = { version = "1", default-features = false, features = ["alloc"] }
