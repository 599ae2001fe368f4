[package]
name = "symmem"
version = "0.1.0"
edition = "2021"
publish = false

[dependencies]
cpp_demangle = "=0.4.5"
rustc-demangle = "=0.1.28"
