[package]
name = "transitions"
version = "0.1.0"
edition = "2021"
publish = false

[dependencies]
append = "*"
log = "0.4"
strum = "0.24"
strum_macros = "0.24"
thiserror = "1"
