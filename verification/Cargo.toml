[package]
name = "ucd_tables"
version = "0.1.0"
edition = "2021"
publish = false

[dependencies]
convert_case = "*"
thiserror = "*"
