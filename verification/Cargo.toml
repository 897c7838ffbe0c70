[package]
name = "roaring"
version = "0.11.3"
edition = "2021"
publish = false

[dependencies]
rkyv = "0.8"
