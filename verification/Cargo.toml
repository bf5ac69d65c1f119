[package]
name = "dvc_data"
version = "0.1.0"
edition = "2021"
publish = false

[dependencies]
base16ct = { version = "0.2", features = ["alloc"] }
camino = "1"
clap = { version = "4", features = ["derive"] }
config = { version = "*", default-features = false, features = ["ini"] }
console = "*"
directories = "*"
env_logger = "*"
git2 = { version = "*", default-features = false }
ignore = "0.4"
indicatif = { version = "*", features = ["rayon"] }
itertools = "*"
jwalk = "0.8"
log = "0.4"
md-5 = "0.10"
num_cpus = "1"
rayon = "1"
reflink-copy = "*"
rusqlite = { version = "*", features = ["bundled"] }
serde = { version = "1", features = ["derive"] }
serde_json = "1"
serde_with = "3"
serde_yaml = "0.9"
thiserror = "1"
whoami = "1"
