[package]
name = "todomd"
version = "0.1.0"
edition = "2021"
publish = false

[dependencies]
itertools = "0.14"
pulldown-cmark = { version = "0.13", default-features = false }

[dev-dependencies]
rand = "0.9"
rand_chacha = "0.9"
