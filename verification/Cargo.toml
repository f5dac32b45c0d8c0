[package]
name = "numeta"
version = "0.1.0"
edition = "2021"
publish = false

[dependencies]
encoding_rs = "=0.8.44"
flate2 = "=1.1.10"
lopdf = "=0.47.0"
quick-xml = "=0.37.5"
zip = { version = "=9.2.2", default-features = false, features = ["deflate"] }
fastrand = "=2.5.0"
