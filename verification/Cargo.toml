[package]
name = "pdf_rancher"
version = "0.1.0"
edition = "2021"
publish = false

[dependencies]
lopdf = "*"
image = "*"
flate2 = "*"
rand = "*"
serde = { version = "*", features = ["derive"] }
serde_json = "*"
