[package]
name = "active-descriptions"
version = "0.1.0"
edition = "2021"
rust-version = "1.95"
publish = false

[dependencies]
anyhow = "=1.0.104"
futures = "=0.3.34"
jj-lib = "=0.37.0"
# Not used here: holds back a dependency of jj-lib, which needs a newer compiler from 2.0.5 on.
kstring = "=2.0.2"
pollster = "=0.4.0"
serde_json = "=1.0.154"
tempfile = "=3.27.0"
