[package]
name = "librarian"
version = "0.1.0"
edition = "2021"
publish = false

[dependencies]
anyhow = "*"
chrono = "*"
clap = { version = "*", features = ["derive"] }
clap_complete = "*"
colored = "*"
dirs = "*"
futures-util = "*"
indicatif = "*"
inquire = "*"
lopdf = "*"
pdf-extract = "*"
reqwest = { version = "*", default-features = false, features = ["json", "multipart", "stream"] }
rusqlite = { version = "*", features = ["bundled"] }
scraper = "*"
serde = { version = "*", features = ["derive"] }
serde_json = "*"
termimad = "*"
tokio = { version = "*", features = ["full"] }
toml = "*"
url = "*"
