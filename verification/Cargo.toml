[package]
name = "taiji"
version = "0.1.0"
edition = "2021"

[dependencies]
chrono = "0.4"
clap = { version = "4", features = ["derive"] }
crossterm = "0.25"
hyphenation = { version = "0.8", features = ["embed_en-us"] }
paragraph-breaker = "0.4"
thiserror = "1"
tui = "0.19"
