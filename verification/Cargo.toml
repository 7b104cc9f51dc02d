[package]
name = "transit_radar"
version = "0.1.0"
edition = "2021"
publish = false

[dependencies]
serde = { version = "=1.0.229", features = ["derive"] }
csv = "=1.4.0"
chrono = "=0.4.45"
chrono-tz = "=0.10.4"
regex = "=1.13.1"
tst = "=0.12.1"
lazysort = "=0.2.1"
urlencoding = "=2.1.3"
rmp-serde = "=1.3.1"
lasso = "=0.7.3"
geo = "*"
