[package]
name = "texture_graph"
version = "0.1.0"
edition = "2021"
publish = false

[dependencies]
petgraph = "=0.6.5"
image = { version = "=0.24.9", default-features = false }
interpolation = "=0.3.0"
eframe = { version = "0.23", default-features = false, features = ["glow"] }
