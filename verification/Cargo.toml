[package]
name = "proc_receive"
version = "0.1.0"
edition = "2021"
publish = false

[dependencies]
bstr = { version = "1", default-features = false, features = ["std"] }
fs3 = "0.5"
hex = "0.4"
quick-error = "2"
