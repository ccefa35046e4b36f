[package]
name = "traviz"
version = "0.1.0"
edition = "2021"
publish = false

[dependencies]
anyhow = "1"
chrono = "0.4"
directories = "5"
hex = "0.4"
opentelemetry-proto = { version = "*", default-features = false, features = ["gen-tonic-messages", "trace", "with-serde"] }
rand = "0.8"
rand_chacha = "0.3"
regex = "1"
serde = { version = "1", features = ["derive"] }
serde_json = "1"
sha2 = "0.10"
uuid = { version = "1", features = ["v4", "serde"] }
