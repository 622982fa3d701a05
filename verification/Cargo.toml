[package]
name = "mvl_rust"
version = "0.1.0"
edition = "2021"
publish = false

[dependencies]
syn = { version = "=2.0.119", features = ["full", "extra-traits", "visit", "parsing", "printing"] }
quote = "=1.0.47"
proc-macro2 = { version = "=1.0.107", features = ["span-locations"] }
serde = { version = "=1.0.229", features = ["derive"] }
serde_json = "=1.0.154"
annotate-snippets = "=0.11.5"
thiserror = "=1.0.69"
schemars = "=0.8.22"
