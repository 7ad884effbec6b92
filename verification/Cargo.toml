[package]
name = "file_tree"
version = "0.1.0"
edition = "2021"
publish = false

[dependencies]
anyhow = "1"
async-walkdir = "*"
futures = "0.3"
id_tree = "1"
