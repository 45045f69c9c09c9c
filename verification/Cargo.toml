[package]
name = "money_man"
version = "0.1.0"
edition = "2021"
publish = false

[dependencies]
chrono = { version = "0.4", default-features = false, features = ["std"] }
csv = "1"
directories = "5"
eframe = { version = "*", default-features = false, features = ["glow", "default_fonts", "x11"] }
env_logger = "0.11"
log = "0.4"
native-dialog = "*"
serde = { version = "1", features = ["derive"] }
serde_json = "1"

[dev-dependencies]
regex = "1"
