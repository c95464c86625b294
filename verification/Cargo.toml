[package]
name = "ferris"
version = "0.1.0"
edition = "2021"
publish = false

[dependencies]
bincode = "2"
rayon = "1"
sled = "0.34"
