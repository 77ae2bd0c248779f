[package]
name = "canopy"
version = "0.1.0"
edition = "2021"
publish = false

[dependencies]
accesskit = "=0.17.1"
notify = "=8.2.1"
taffy = "=0.11.0"
