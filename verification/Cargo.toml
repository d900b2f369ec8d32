[package]
name = "dxvk_cache"
version = "0.1.0"
edition = "2021"
publish = false

[dependencies]
linked-hash-map = "*"
sha1 = "*"
