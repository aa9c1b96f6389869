[package]
name = "mnk_mcts"
version = "0.1.0"
edition = "2021"
publish = false

[dependencies]
indexmap = "*"
ndarray = "*"
rand = "0.8"
rand_distr = "0.4"
rayon = "*"
serde_json = "*"
uuid = { version = "*", features = ["v4"] }
