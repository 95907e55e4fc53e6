[package]
name = "maprando"
version = "0.1.0"
edition = "2021"
publish = false

[dependencies]
crc32fast = "=1.5.3"
anyhow = "=1.0.104"
zstd = "=0.13.3"
object_store = { version = "=0.14.2", features = ["gcp"] }
futures = "=0.3.34"
log = "=0.4.34"
actix-web = { version = "=4.18.1", default-features = false }
pathfinding = "*"
serde = { version = "1", features = ["derive"] }
glob = "*"
json = "*"
hashbrown = "*"
