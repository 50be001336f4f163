[package]
name = "vrm_slim"
version = "0.1.0"
edition = "2021"
publish = false

[dependencies]
serde_json = { version = "1", features = ["preserve_order", "arbitrary_precision"] }
structopt = "0.3"
