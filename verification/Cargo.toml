[package]
name = "mqpkg"
version = "0.1.0"
edition = "2021"
publish = false

[dependencies]
md5 = "*"
anyhow = "*"
camino = "*"
clap = { version = "*", features = ["derive"] }
clap-verbosity-flag = "*"
console = "*"
dunce = "*"
indicatif = "*"
log = "*"
named-lock = "*"
pretty_env_logger = "*"
reqwest = { version = "*", default-features = false, features = ["blocking", "json"] }
serde = { version = "*", features = ["derive"] }
serde_json = "*"
serde_with = "*"
serde_yaml = "*"
thiserror = "*"
url = "*"
vfs = "*"
