[package]
name = "webscraper"
version = "0.1.0"
edition = "2021"
publish = false

[dependencies]
select = "=0.5.0"
regex = "=1.13.1"
anyhow = "=1.0.104"
futures = "=0.3.34"
indicatif = "0.17"
paw = "=1.0.0"
reqwest = { version = "=0.11.27", default-features = false }
serde = "=1.0.229"
serde_derive = "=1.0.229"
sqlx = { version = "=0.5.13", default-features = false, features = ["runtime-tokio-rustls", "sqlite", "macros"] }
structopt = { version = "=0.3.26", features = ["paw"] }
tokio = { version = "=1.54.1", features = ["full"] }
