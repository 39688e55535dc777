[package]
name = "xdw_salvage"
version = "0.1.0"
edition = "2021"
publish = false

[dependencies]
encoding_rs = "=0.8.44"
subsetter = { version = "=0.2.6", default-features = false }
