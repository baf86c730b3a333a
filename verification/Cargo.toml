[package]
name = "yggdrasil"
version = "0.1.0"
edition = "2021"
publish = false

[dependencies]
async-trait = "0.1"
blake2 = "0.10"
crypto_box = { version = "0.9", features = ["salsa20"] }
ed25519-dalek = { version = "2", features = ["rand_core", "pkcs8"] }
getifaddrs = "*"
getopts = "0.2"
hex = "0.4"
ipnet = "2"
murmur3 = "0.5"
rand = "0.8"
rcgen = { version = "0.13", default-features = false, features = ["ring", "pem"] }
regex = "1"
route_manager = "*"
rustls = { version = "0.23", default-features = false, features = ["ring", "std", "tls12"] }
serde = { version = "1", features = ["derive"] }
serde_json = "1"
socket2 = { version = "0.5", features = ["all"] }
thiserror = "1"
time = { version = "0.3", features = ["macros", "formatting"] }
tokio = { version = "1", features = ["full"] }
tokio-rustls = { version = "0.26", default-features = false, features = ["ring", "tls12"] }
tokio-util = "0.7"
toml = "0.8"
toml_edit = "0.22"
tracing = "0.1"
tracing-subscriber = { version = "0.3", features = ["env-filter", "time", "local-time"] }
url = "2"
x509-parser = "0.16"
