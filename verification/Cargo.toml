[package]
name = "dp_library"
version = "0.1.0"
edition = "2021"
publish = false

[dependencies]
ahash = "0.8"
regex = "1"
calamine = "*"
ipf_survey = "*"
clap = { version = "4", features = ["derive"] }
