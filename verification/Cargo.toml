[package]
name = "git_team_stats"
version = "0.1.0"
edition = "2021"
publish = false

[dependencies]
chrono = "*"
clap = { version = "*", features = ["derive"] }
colored = "*"
comfy-table = "*"
dotenvy = "*"
git2 = { version = "*", default-features = false }
serde = { version = "*", features = ["derive"] }
