[package]
name = "tle_plot"
version = "0.1.0"
edition = "2021"
publish = false

[dependencies]
sgp4 = "*"
anyhow = "*"
clap = { version = "*", features = ["derive"] }
reqwest = { version = "*", default-features = false, features = ["blocking", "rustls-tls"] }
