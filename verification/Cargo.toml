[package]
name = "wavefield"
version = "0.1.0"
edition = "2021"
publish = false

[dependencies]
bitvec = "1"
crossbeam-channel = "0.5"
glam = "0.29"
hecs = "0.10"
kira = { version = "0.10", default-features = false }
macroquad = { version = "0.4", default-features = false }
rand = "0.9"
rustc-hash = "2"
smallvec = "1"
