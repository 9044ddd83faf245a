[package]
name = "panier"
version = "0.1.0"
edition = "2021"
publish = false

[dependencies]
chrono = { version = "=0.4.45", default-features = false, features = ["clock", "std"] }
serde = { version = "=1.0.229", features = ["derive"] }
serde_json = "=1.0.154"
dioxus = { version = "0.7", features = ["router", "web"] }
dioxus-i18n = "*"
dioxus-sdk-storage = "*"
unic-langid = { version = "*", features = ["macros"] }
