[package]
name = "h2hist"
version = "0.1.3"
edition = "2021"
publish = false

[dev-dependencies]
histogram = "*"
