[package]
name = "tinyecs"
version = "0.1.0"
edition = "2021"
publish = false

[dependencies]
time = "0.1"
vec_map = "0.8"
toml = "0.1"
rustc-serialize = "0.3"
