[package]
name = "defmt_logger_tcp"
version = "0.1.0"
edition = "2021"
publish = false

[dependencies]
defmt = "=1.1.1"
