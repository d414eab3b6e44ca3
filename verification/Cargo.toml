[package]
name = "boggle_maker"
version = "0.1.0"
edition = "2021"
publish = false

[dependencies]
word-trie = "*"
rand = "0.9"
genetic_algorithm = "0.19"
