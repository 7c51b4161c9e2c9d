[package]
name = "firmware-parsers"
version = "0.1.0"
edition = "2021"
publish = false

[dependencies]
aes = "0.8"
cipher = "0.4"
regex = "1"
encoding_rs = "0.8"
flate2 = "1"
tar = "0.4"
bzip2 = "*"
zip = "*"
android-sparse = "*"
quick-xml = { version = "*", features = ["serialize"] }
serde = { version = "1", features = ["derive"] }
anyhow = "1"
pyo3 = "0.22"
