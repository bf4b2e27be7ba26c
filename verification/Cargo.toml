[package]
name = "boomwhackers"
version = "0.1.0"
edition = "2021"
publish = false

[dependencies]
anyhow = "1"
elementtree = "1"
index_vec = "0.1"
itertools = "0.10"
ordered-float = "3"
rand = "0.8"
rand_chacha = "0.3"
zip = { version = "0.6", default-features = false, features = ["deflate"] }
