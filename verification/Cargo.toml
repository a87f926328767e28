[package]
name = "kea"
version = "0.1.0"
edition = "2021"
publish = false

[dependencies]
ropey = "1"
log = "0.4"
fern = "0.6"
chrono = "0.4"
serde = "1"
serde_yaml = "0.8"
thiserror = "1"
glutin = "0.24"
gl = "0.14"
font-kit = "0.10"
pathfinder_geometry = "0.5"
euclid = "0.20"
