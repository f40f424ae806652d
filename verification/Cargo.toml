[package]
name = "scene_query"
version = "0.1.0"
edition = "2021"
publish = false

[dependencies]
parry3d = "=0.31.1"
bincode = "=1.3.3"
crossbeam = "=0.8.5"
