[package]
name = "snake_core"
version = "0.1.0"
edition = "2021"
publish = false

[dependencies]
priority-queue = "*"
serde = { version = "*", features = ["derive"] }
serde_json = "*"
log = "*"
phf = { version = "*", features = ["macros"] }
ordered-float = "*"
