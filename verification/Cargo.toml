[package]
name = "libaki_mline"
version = "0.1.0"
edition = "2021"
publish = false

[dependencies]
anyhow = "1"
atty = "0.2"
flood-tide = "0.2"
naive_opt = "0.1"
regex = "1"
runnel = "0.3"
