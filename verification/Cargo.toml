[package]
name = "license_report"
version = "0.1.0"
edition = "2021"
publish = false

[dependencies]
ansi_term = "=0.12.1"
cargo-license = "=0.7.0"
cargo_metadata = "=0.21.0"
getopts = "=0.2.24"
