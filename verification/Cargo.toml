[package]
name = "difff"
version = "0.1.0"
edition = "2021"
publish = false

[dependencies]
similar = "=2.7.0"
gtk4 = { version = "=0.9.7", features = ["v4_14"] }
unicode-normalization = "0.1"
