[package]
name = "argos_runner"
version = "0.1.0"
edition = "2021"
publish = false

[dependencies]
rand = "*"
rand_distr = "*"
regex = "*"
serde = { version = "1", features = ["derive"] }
serde_json = "1"
toml = "*"
rayon = "*"
indicatif = "*"
log = "*"
env_logger = "*"
