[package]
name = "itemset_mining"
version = "0.1.0"
edition = "2021"
publish = false

[dependencies]
itertools = "*"
rand = "0.8"
serde_json = "1"
fp-growth = "*"
