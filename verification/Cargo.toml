[package]
name = "sgi_summer"
version = "0.1.0"
edition = "2021"
publish = false

[dependencies]
jiff = { version = "0.2", default-features = false, features = ["std", "serde", "tzdb-bundle-always"] }
quick-xml = { version = "*", features = ["serialize"] }
serde = { version = "1", features = ["derive"] }
