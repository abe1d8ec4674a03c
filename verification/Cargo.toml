[package]
name = "tarkit"
version = "0.1.0"
edition = "2021"
publish = false

[dependencies]
flate2 = "=1.1.10"
bzip2 = "=0.6.1"
lzma-rs = "=0.3.0"
xattr = "1"

[dev-dependencies]
tar = "=0.4.46"
