[package]
name = "puffin"
version = "0.1.0"
edition = "2021"
publish = false

[dependencies]
camino = "1"
fs-err = "2"
tracing = "0.1"
