[package]
name = "pruner"
version = "0.1.0"
edition = "2021"
publish = false

[dependencies]
anyhow = "*"
clap = { version = "*", features = ["derive"] }
env_logger = "*"
log = "*"
serde = { version = "*", features = ["derive"] }
toml = "*"
tree-sitter = "=0.25.10"
tree-sitter-clojure = "=0.1.0"
url = { version = "*", features = ["serde"] }
xdg = "*"
