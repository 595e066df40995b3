[package]
name = "state_consumer"
version = "0.1.0"
edition = "2021"
publish = false

[dependencies]
anyhow = "1"
async-trait = "0.1"
bs58 = "=0.4.0"
chrono = "0.4"
diesel = { version = "=1.4.8", features = ["postgres", "r2d2", "64-column-tables"] }
envy = "0.4"
itertools = "0.10"
r2d2 = "0.8"
serde = { version = "1", features = ["derive"] }
thiserror = "1"
tokio = { version = "1", features = ["full"] }
tonic = "0.9"
warp = "0.3"
