[package]
name = "dtschema"
version = "0.1.0"
edition = "2021"
publish = false

[dependencies]
regex = "1"
fancy-regex = "*"
serde_json = "1"
sha2 = "0.10"
serde = { version = "1", features = ["derive"] }
serde_yaml = "0.9"
jsonschema = { version = "*", default-features = false }
rayon = "1"
clap = { version = "4", features = ["derive"] }
anyhow = "1"
argfile = "0.2"
thiserror = "2"
