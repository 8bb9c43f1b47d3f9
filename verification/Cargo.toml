[package]
name = "wakformat"
version = "0.1.0"
edition = "2021"
publish = false

[dependencies]
bulletformat = "*"
bzip2 = "*"
fastrand = "2"
tar = "0.4"
