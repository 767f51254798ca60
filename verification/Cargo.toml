[package]
name = "tinysnark"
version = "0.1.0"
edition = "2021"
publish = false
