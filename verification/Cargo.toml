[package]
name = "noir_lib"
version = "0.1.0"
edition = "2021"
publish = false

[dependencies]
wit-bindgen = "=0.63.0"
