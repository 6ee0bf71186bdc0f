[package]
name = "tree_list"
version = "0.1.0"
edition = "2021"
publish = false

[dependencies]
cursive = "*"
rand = "*"
regex = "*"
