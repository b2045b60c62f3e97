[package]
name = "module-lang"
version = "1.0.0"
edition = "2021"
publish = false

[dependencies]
symbol-lang = "=1.0.0"
source-lang = "=1.0.1"
serde = { version = "=1.0.229", features = ["derive"] }

[dev-dependencies]
intern-lang = "=1.0.1"
