[package]
name = "polling_places"
version = "0.1.0"
edition = "2021"
publish = false

[dependencies]
encoding_rs = "0.8"
plotters = "0.3"
