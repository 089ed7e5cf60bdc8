[package]
name = "type_forge"
version = "0.1.0"
edition = "2021"
publish = false

[dependencies]
serde = "=1.0.229"
serde_json = "=1.0.154"
serde_yaml = "=0.9.34"
toml = "=1.1.8"
quick-xml = { version = "=0.42.0", features = ["serialize"] }
java-properties = "=2.0.0"
json_typegen_shared = "=0.7.0"
clap = { version = "=4.6.7", features = ["derive"] }
miette = "=7.6.0"
thiserror = "=2.0.21"
reqwest = { version = "=0.12.28", default-features = false, features = ["blocking", "rustls-tls"] }
