[package]
name = "instrument_coverage"
version = "0.1.0"
edition = "2021"
publish = false

[dependencies]
rustc_span = "=0.1.2"
tempfile = "=3.27.0"
