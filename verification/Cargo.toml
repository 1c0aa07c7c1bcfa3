[package]
name = "oz"
version = "0.1.0"
edition = "2021"
publish = false

[dependencies]
sha1 = "=0.10.7"
flate2 = "=1.1.10"
clap = { version = "=4.6.7", features = ["derive"] }
configparser = "=3.3.0"
