[package]
name = "henny"
version = "0.1.0"
edition = "2021"
publish = false

[dependencies]
lasso = "=0.7.3"
rust-stemmers = "=1.2.0"
rayon = "=1.12.0"
xml-rs = "=0.8.29"
lopdf = "=0.46.0"
fast_html2md = "*"
log = "0.4"
env_logger = "=0.11.11"
tiny_http = "=0.12.0"
url = "=2.5.8"
serde = { version = "1", features = ["derive"] }
serde_json = "=1.0.154"
clap = { version = "=4.6.7", features = ["derive"] }
ureq = { version = "=3.5.1", features = ["json"] }
gtk4 = "=0.11.5"
