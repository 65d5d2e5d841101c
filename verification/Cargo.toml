[package]
name = "ayagami_gd"
version = "0.1.0"
edition = "2021"
publish = false

[dependencies]
godot = "0.5"
glob = "0.3"
