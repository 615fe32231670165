[package]
name = "cursormochi"
version = "0.1.0"
edition = "2021"
publish = false

[dependencies]
ico = "*"
zip = { version = "*", default-features = false, features = ["deflate"] }
rustix = { version = "*", features = ["fs"] }
tempfile = "*"
