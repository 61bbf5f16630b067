[package]
name = "nectan"
version = "0.1.0"
edition = "2021"
publish = false

[dependencies]
anyhow = "=1.0.104"
base64 = "=0.23.1"
bytes = "=1.12.1"
dirs = "=7.0.0"
ed25519-dalek = { version = "=3.0.0", features = ["rand_core", "serde"] }
fixedbitset = "=0.5.7"
futures = { version = "=0.3.34", default-features = false, features = ["std"] }
ignore = "=0.4.34"
iroh = { version = "=1.4.1", default-features = false, features = ["tls-ring"] }
iroh-mdns-address-lookup = "=0.6.1"
n0-error = "=1.0.1"
postcard = { version = "=1.1.3", features = ["alloc", "use-std"] }
rand = "=0.10.3"
redb = "=4.4.0"
reqwest = { version = "=0.13.5", default-features = false }
serde = { version = "=1.0.229", features = ["derive", "rc"] }
serde_json = "=1.0.154"
tokio = { version = "=1.54.1", features = ["full"] }
tokio-util = "=0.7.20"
tracing = "=0.1.44"
tracing-subscriber = "=0.3.23"
uuid = { version = "=1.29.0", features = ["v4", "serde"] }
zstd = "=0.14.3"
