[package]
name = "dungeon_fov"
version = "0.1.0"
edition = "2021"
publish = false

[dependencies]
rand = "*"
