[package]
name = "wincode_derive"
version = "0.1.0"
edition = "2021"
publish = false

[dependencies]
darling = "0.23"
proc-macro2 = "=1.0.107"
quote = "=1.0.47"
syn = { version = "=2.0.119", features = ["full", "visit", "visit-mut", "extra-traits", "parsing", "printing"] }
