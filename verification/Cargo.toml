[package]
name = "pelorus"
version = "0.1.0"
edition = "2021"
publish = false

[dependencies]
app_units = "0.7"
libc = "0.2"
rustls = { version = "0.23", default-features = false, features = ["ring", "std", "tls12"] }
webpki-roots = "*"
