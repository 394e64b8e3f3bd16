[package]
name = "assignment_1_solution"
version = "0.1.0"
edition = "2021"
publish = false

[dependencies]
uuid = { version = "1", features = ["v4"] }
crossbeam-channel = "0.5"
log = "0.4"

[dev-dependencies]
tempfile = "3"
