[package]
name = "space_trucking"
version = "0.1.0"
edition = "2021"
publish = false

[dependencies]
fastrand = "2"
quad-storage = "0.1"
