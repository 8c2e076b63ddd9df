[package]
name = "spidero"
version = "0.1.0"
edition = "2021"
publish = false

[dependencies]
html5ever = "0.24"
url = "2"
json5 = "0.2"
serde = "1"
serde_derive = "1"
reqwest = "0.9"
futures = "0.1"
tokio = "0.1"
clap = "2"
failure = "0.1"
