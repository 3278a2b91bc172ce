[package]
name = "website"
version = "0.1.0"
edition = "2021"
publish = false

[dependencies]
chrono = { version = "=0.4.45", features = ["serde"] }
dotenvy = "=0.15.7"
env_logger = "=0.11.11"
log = "=0.4.35"
rocket = { version = "=0.5.2", features = ["json"] }
rocket-cache-response = "=0.6.4"
rocket-client-addr = "=0.5.4"
rocket_dyn_templates = { version = "=0.2.0", features = ["tera"] }
serde = { version = "=1.0.229", features = ["derive"] }
sqlx = { version = "=0.8.6", default-features = false, features = ["chrono", "migrate", "postgres", "runtime-tokio", "uuid"] }
