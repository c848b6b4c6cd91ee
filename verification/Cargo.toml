[package]
name = "esp01"
version = "0.1.0"
edition = "2021"
publish = false

[dependencies]
embedded-hal = "=0.2.7"
nb = "=0.1.3"
heapless = "=0.9.3"
serde_at = "=0.25.0"
atat = "=0.25.0"
