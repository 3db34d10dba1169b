[package]
name = "duped"
version = "0.1.0"
edition = "2021"
publish = false

[dependencies]
anyhow = "*"
blake3 = "*"
byte-unit = "*"
filetime = "*"
home = "*"
num_cpus = "*"
pico-args = "*"
rlimit = "*"
rusqlite = { version = "*", features = ["bundled"] }
walkdir = "*"
