[package]
name = "importmap"
version = "0.1.0"
edition = "2021"
publish = false

[dependencies]
rapidhash = "*"
serde_json = "*"
include_dir = "*"
