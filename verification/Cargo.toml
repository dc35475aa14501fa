[package]
name = "cool_thing"
version = "0.1.0"
edition = "2021"
publish = false

[dependencies]
encoding_rs = "0.8"
thiserror = "1.0"
