[package]
name = "chua"
version = "0.1.0"
edition = "2021"
publish = false

[dependencies]
uuid = { version = "=1.27.0", features = ["v4", "serde"] }
num_cpus = "=1.17.0"
tokio = { version = "=1.53.2", features = ["full"] }
reqwest = { version = "=0.13.5", default-features = false, features = ["json", "multipart"] }
warp = { version = "=0.4.3", features = ["server", "multipart"] }
serde = { version = "=1.0.229", features = ["derive"] }
serde_json = "=1.0.151"
structopt = "=0.3.26"
futures = "=0.3.34"
url = "=2.5.8"
bytes = "=1.12.1"
