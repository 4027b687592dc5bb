[package]
name = "pageshelf"
version = "0.1.0"
edition = "2021"
publish = false

[dependencies]
url = "*"
mime_guess = "*"
log = "*"
serde = { version = "*", features = ["derive"] }
minijinja = "*"
actix-web = "*"
clap = { version = "*", features = ["cargo"] }
config = "*"
fern = { version = "*", features = ["colored"] }
chrono = "*"
tokio = { version = "*", features = ["rt", "rt-multi-thread", "macros", "sync", "time"] }
forgejo-api = "*"
