[package]
name = "texttv"
version = "0.1.0"
edition = "2021"
publish = false

[dependencies]
getopts = "0.2"
home = "0.5"
rustls = "0.19"
webpki = "0.21"
webpki-roots = "0.21"

[dev-dependencies]
regex = "1"
