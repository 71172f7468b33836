[package]
name = "bayes_o_matic"
version = "0.1.0"
edition = "2021"
publish = false

[dependencies]
loopybayesnet = "=0.1.0"
ndarray = "=0.12.1"
serde = { version = "=1.0.229", features = ["derive"] }
serde_json = "=1.0.154"
