[package]
name = "atuin-fullhistory"
version = "0.1.0"
edition = "2021"
publish = false

[dependencies]
async-trait = "0.1"
clap = { version = "4", features = ["derive"] }
config = { version = "*", default-features = false, features = ["toml"] }
crossterm = { version = "*", features = ["serde"] }
directories = "*"
eyre = "0.6"
fuzzy-matcher = "0.3"
interim = { version = "*", features = ["time_0_3"] }
log = "0.4"
palette = "0.7"
regex = "1"
serde = { version = "1", features = ["derive"] }
serde_json = "1"
shellexpand = "3"
time = { version = "0.3", features = ["parsing", "formatting", "local-offset", "macros"] }
tokio = { version = "1", features = ["full"] }
uuid = { version = "1", features = ["v4"] }
whoami = "*"
