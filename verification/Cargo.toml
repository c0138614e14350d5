[package]
name = "model_imagery_server"
version = "0.1.0"
edition = "2021"
publish = false

[dependencies]
image = { version = "0.24", default-features = false, features = ["png", "jpeg"] }
rand = "0.8"
new_string_template = "1"
actix-web = { version = "4", default-features = false, features = ["macros"] }
actix-cors = "0.7"
mini-moka = "0.10"
reqwest = { version = "0.11", default-features = false, features = ["rustls-tls"] }
serde = { version = "1", features = ["derive"] }
serde_json = "1"
serde_yaml = "0.9"
schemars = "0.8"
env_logger = "0.10"
log = "0.4"
lazy_static = "1"
futures = "0.3"
derive_more = "0.99"
glam = "0.24"
winapi = { version = "0.3", features = ["consoleapi", "processenv", "winbase", "wincon"] }

[dev-dependencies]
regex = "1"
