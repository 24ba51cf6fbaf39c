[package]
name = "breachcheck"
version = "0.1.0"
edition = "2021"
publish = false

[dependencies]
sha1 = "0.10"
reqwest = { version = "0.12", default-features = false }
iced = { version = "0.13", default-features = false, features = ["tiny-skia"] }
