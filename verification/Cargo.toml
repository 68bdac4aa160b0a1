[package]
name = "ant_sort"
version = "0.1.0"
edition = "2021"
publish = false

[dependencies]
rand = "=0.8.8"
hexasphere = { version = "=19.0.0", features = ["adjacency"] }
