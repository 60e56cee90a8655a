[package]
name = "mcts"
version = "0.1.0"
edition = "2021"
publish = false

[dependencies]
ego-tree = "*"
rand = "0.8"
