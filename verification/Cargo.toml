[package]
name = "habit_tracker"
version = "0.1.0"
edition = "2021"
publish = false

[dependencies]
chrono = { version = "0.4", default-features = false, features = ["clock", "std"] }
cursive = { version = "*", default-features = false }

[dev-dependencies]
serde_json = "1"
