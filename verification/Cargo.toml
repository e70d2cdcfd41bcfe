[package]
name = "rectbn"
version = "0.1.0"
edition = "2021"
publish = false

[dependencies]
ndarray = "0.15"
itertools = "0.10"
rand = "0.8"
rand_chacha = "0.3"
statrs = "0.16"
rayon = "1"
thiserror = "1"
log = "0.4"
enum_dispatch = "0.3"
