[package]
name = "misanthropic"
version = "0.1.0"
edition = "2021"
publish = false

[dependencies]
serde = { version = "1", features = ["derive"] }
serde_json = { version = "1", features = ["preserve_order"] }
schemars = "1"
derive_more = { version = "2", features = ["is_variant", "from"] }
