[package]
name = "quadtree"
version = "0.1.0"
edition = "2021"
publish = false

[dependencies]
itertools = "=0.14.0"
rand = "=0.9.5"
ordered-float = { version = "=5.5.0", features = ["serde"] }
serdev = "=0.3.2"
eyre = "=0.6.14"
nannou = "0.19"
nannou_egui = "0.19"

[dev-dependencies]
rand_chacha = "=0.9.0"
