[package]
name = "floodsub"
version = "0.1.0"
edition = "2021"
publish = false

[dependencies]
cuckoofilter = "*"
futures = "0.1"
