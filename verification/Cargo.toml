[package]
name = "directory"
version = "0.1.0"
edition = "2021"
publish = false

[dependencies]
pwhash = "1"
regex = "1"
rand = "0.8"
