[package]
name = "disk_reclaim"
version = "0.1.0"
edition = "2021"
publish = false

[dependencies]
sha2 = "0.10"
humansize = "2"
walkdir = "2"
