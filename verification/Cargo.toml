[package]
name = "shipyard_hierarchy"
version = "0.1.0"
edition = "2021"
publish = false

[dependencies]
shipyard = { version = "0.6", default-features = false, features = ["std"] }
