[package]
name = "collect_memories"
version = "0.1.0"
edition = "2021"
publish = false

[dependencies]
cursive = "*"
cursive_tree_view = "*"
nfd = "*"
