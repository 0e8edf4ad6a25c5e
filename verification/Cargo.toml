[package]
name = "regex_vm"
version = "0.1.0"
edition = "2021"
publish = false
