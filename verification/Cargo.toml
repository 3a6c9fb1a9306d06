[package]
name = "rusty_share"
version = "0.1.0"
edition = "2021"
publish = false

[dependencies]
bytes = "0.4"
bytesize = "=0.2.1"
chrono = "=0.4.45"
chrono-humanize = "=0.0.11"
cookie = "=0.12.0"
diesel = { version = "1.4", default-features = false }
failure = "0.1"
futures = "0.1"
futures-cpupool = "0.1"
horrorshow = "=0.8.9"
http = "0.1"
http-serve = "0.1"
hyper = "0.12"
log = "0.4"
mime-sniffer = "=0.1.3"
pretty_env_logger = "0.3"
rayon = "=1.12.0"
structopt = "0.2"
tar = "=0.4.46"
tokio-core = "0.1"
url = "=1.7.2"
walkdir = "2"
