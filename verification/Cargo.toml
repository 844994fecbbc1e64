[package]
name = "axochat"
version = "0.1.0"
edition = "2021"
publish = false

[dependencies]
rand = "=0.8.8"
actix = "=0.13.5"
actix-web = { version = "=4.15.0", default-features = false, features = ["macros", "ws"] }
actix-web-actors = "=4.3.1"
awc = { version = "=3.8.2", default-features = false }
jsonwebtoken = "=11.1.0"
serde = { version = "=1.0.229", features = ["derive"] }
serde_json = "=1.0.151"
toml = "=1.1.7"
uuid = { version = "=1.27.0", features = ["serde"] }
log = "=0.4.34"
env_logger = "=0.11.11"
structopt = "=0.3.26"
url = "=2.5.8"
