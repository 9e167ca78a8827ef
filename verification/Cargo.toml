[package]
name = "weavatrix-graph"
version = "0.6.0"
edition = "2021"
publish = false

[dependencies]
rayon = "1"
serde = { version = "1", features = ["derive"] }
