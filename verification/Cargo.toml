[package]
name = "nlp_bot_api"
version = "0.1.0"
edition = "2021"
publish = false

[dependencies]
ascii_table = "4"
chrono = "0.4"
clap = { version = "4", features = ["derive"] }
env_logger = "0.11"
image = { version = "0.24", default-features = false, features = ["png"] }
log = "0.4"
plotters = { version = "0.3", default-features = false, features = ["bitmap_backend", "line_series", "chrono", "full_palette"] }
poise = "0.6"
serde = { version = "1", features = ["derive"] }
serde_json = "1"
serenity = "0.12"
sqlx = { version = "0.7", default-features = false, features = ["sqlite", "runtime-tokio"] }
tokio = { version = "1", features = ["rt-multi-thread", "macros", "sync"] }

[dev-dependencies]
regex = "1"
