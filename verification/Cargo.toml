[package]
name = "zip_indexer"
version = "0.1.0"
edition = "2021"
publish = false

[dependencies]
zip = { version = "*", default-features = false, features = ["deflate"] }
serde = { version = "1", features = ["derive"] }
serde_json = "1"
rocket = { version = "0.5", features = ["json"] }
uuid = { version = "1", features = ["v4"] }
eyre = "*"
reqwest = { version = "*", default-features = false, features = ["blocking", "json"] }
tqdm = "*"
