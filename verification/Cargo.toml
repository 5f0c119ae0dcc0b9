[package]
name = "osterrain50"
version = "0.1.0"
edition = "2021"
publish = false

[dependencies]
walkdir = "*"
zip = { version = "*", default-features = false, features = ["deflate"] }
