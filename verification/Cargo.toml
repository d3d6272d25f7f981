[package]
name = "rnote"
version = "0.1.0"
edition = "2021"
publish = false

[dependencies]
roxmltree = "=0.15.1"
flate2 = "=1.1.10"
xmlwriter = "=0.1.0"
anyhow = "=1.0.104"
nalgebra = { version = "=0.31.4", features = ["serde-serialize"] }
kurbo = "=0.8.3"
rand = "=0.8.8"
rand_distr = "=0.4.3"
serde = { version = "=1.0.229", features = ["derive"] }
