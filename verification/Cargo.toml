[package]
name = "dashc"
version = "0.1.0"
edition = "2021"
publish = false

[dependencies]
serde = { version = "=1.0.229", features = ["derive"] }
serde_json = { version = "=1.0.154", features = ["unbounded_depth"] }
blake3 = "=1.8.7"
fdsm = "=0.8.0"
nalgebra = "=0.34.2"
image = { version = "=0.25.10", default-features = false, features = ["png"] }
