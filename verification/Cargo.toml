[package]
name = "typefix"
version = "0.1.0"
edition = "2021"
publish = false

[dependencies]
lru = "=0.12.5"
fst = { version = "=0.4.7", features = ["levenshtein"] }
memmap2 = "=0.9.12"
serde = { version = "=1.0.229", features = ["derive"] }
serde_json = "=1.0.154"
clap = "=4.6.7"
anyhow = "=1.0.104"
thiserror = "=1.0.69"
tracing = "=0.1.44"
tracing-subscriber = { version = "=0.3.23", features = ["env-filter"] }
parking_lot = "=0.12.5"
sys-locale = "=0.3.2"
directories = "=5.0.1"
once_cell = "=1.21.4"
