[package]
name = "sd_archivemanager"
version = "0.1.0"
edition = "2021"
publish = false

[dependencies]
chrono = { version = "=0.4.45", features = ["serde"] }
clap = { version = "=4.6.7", features = ["derive"] }
cookie_store = "=0.22.1"
once_cell = "=1.21.4"
regex = "=1.13.1"
reqwest = { version = "=0.13.5", default-features = false, features = ["json", "cookies", "query", "form"] }
reqwest_cookie_store = "=0.10.0"
serde = { version = "=1.0.229", features = ["derive"] }
serde_json = "=1.0.151"
tinytemplate = "=1.2.1"
tokio = { version = "=1.53.2", features = ["rt-multi-thread", "macros", "sync", "fs", "io-util"] }
toml = "=1.1.6"
url = "=2.5.8"
xdg = "=3.0.0"
