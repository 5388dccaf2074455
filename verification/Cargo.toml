[package]
name = "artifact_serde"
version = "0.1.0"
edition = "2021"
publish = false

[dependencies]
base64 = "0.13"
ammonia = "3"
serde = "1"
serde_derive = "1"
