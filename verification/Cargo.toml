[package]
name = "wall_e1"
version = "0.1.0"
edition = "2021"
publish = false

[dependencies]
regex = "1"
rand = "0.8"
rayon = "1"
serde = { version = "1", features = ["derive"] }
serde_json = "1"
csv = "1"
ndarray = "0.15"
ndarray-rand = "0.14"
num_cpus = "1"
