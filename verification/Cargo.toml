[package]
name = "set_desugar"
version = "0.1.0"
edition = "2021"
publish = false
