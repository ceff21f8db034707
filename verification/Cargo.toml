[package]
name = "ddns"
version = "0.7.1"
edition = "2021"
publish = false

[dependencies]
base64 = "=0.22.1"
bytes = "=1.12.1"
clap = { version = "4", features = ["derive"] }
dashmap = "=6.2.1"
deadpool-redis = "=0.23.1"
dhttp-identity = "=0.3.0"
dquic = "=0.7.2"
futures = "0.3"
h3x = "=0.6.2"
http = "=1.5.0"
http-body = "1"
http-body-util = "0.1"
idna = "=1.1.0"
maxminddb = "=0.26.0"
reqwest = { version = "=0.12.28", default-features = false, features = ["rustls-tls-manual-roots"] }
ring = "=0.17.14"
rustls = "=0.23.46"
rustls-native-certs = "0.8"
rustls-pemfile = "=2.2.0"
serde = { version = "1", features = ["derive"] }
snafu = "0.8"
tokio = { version = "1", features = ["rt-multi-thread", "macros", "sync", "time", "net"] }
toml = "1"
tower-service = "0.3"
tracing = "0.1"
tracing-subscriber = "0.3"
url = "=2.5.8"
x509-parser = "=0.18.1"
