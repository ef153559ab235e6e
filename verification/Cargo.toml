[package]
name = "http_follow"
version = "0.1.0"
edition = "2021"
publish = false

[dependencies]
abstract-ns = "0.4"
argparse = "0.2"
env_logger = "0.4"
futures = "0.1"
futures-cpupool = "0.1"
log = "0.3"
native-tls = "0.2"
ns-router = "0.1"
ns-std-threaded = "0.3"
rustls = "0.16"
tk-easyloop = "0.1"
tk-http = "0.3"
tokio-core = "0.1"
tokio-rustls = "0.10"
tokio-tls = "0.2"
url = "1"
webpki-roots = "0.17"
