[package]
name = "enyo"
version = "0.1.0"
edition = "2021"
publish = false

[dependencies]
font8x8 = "0.3"
image = { version = "0.25", default-features = false, features = ["png", "gif"] }
minifb = "0.27"
serde = { version = "1", features = ["derive"] }
serde_json = "1"
tracing = "0.1"
tracing-subscriber = { version = "0.3", features = ["env-filter", "fmt"] }
