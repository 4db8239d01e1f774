[package]
name = "event_list"
version = "0.1.0"
edition = "2021"
publish = false

[dependencies]
async-trait = "0.1"
chrono = { version = "0.4", features = ["serde"] }
futures = "0.3"
google-calendar = "*"
hyper = { version = "0.14", features = ["full"] }
ical = "*"
lazy_static = "1"
log = "0.4"
open = "*"
reqwest = "0.11"
serde = { version = "1", features = ["derive"] }
serde_json = "1"
stringreader = "*"
tokio = { version = "1", features = ["full"] }
toml = "0.5"
trayicon = "*"
winapi = { version = "0.3", features = ["winuser"] }
