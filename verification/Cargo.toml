[package]
name = "zexpr"
version = "0.1.0"
edition = "2021"
publish = false

[dependencies]
base-x = "0.2"
nom = "7"
