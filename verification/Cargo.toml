[package]
name = "bvr"
version = "0.1.0"
edition = "2021"
publish = false

[dependencies]
im = "=15.1.0"
memchr = "=2.8.3"
regex = "=1.13.1"
serde = { version = "=1.0.229", features = ["derive"] }
serde_json = "=1.0.154"
directories-next = "=2.0.0"
supports-color = "=3.0.2"
shlex = "*"
shellexpand = "*"
