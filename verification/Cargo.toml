[package]
name = "emote_tally"
version = "0.1.0"
edition = "2021"
publish = false

[dependencies]
regex = "1"
chrono = "0.4"
rusqlite = { version = "0.29", features = ["bundled"] }
serenity = "0.11"
tokio = { version = "1", features = ["macros", "rt-multi-thread"] }
dotenv = "0.15"
log = "0.4"
