[package]
name = "item_store"
version = "0.1.0"
edition = "2021"
publish = false

[dependencies]
actix-web = { version = "*", default-features = false, features = ["macros"] }
serde = { version = "*", features = ["derive"] }
