[package]
name = "dogstatsd_writer"
version = "0.1.0"
edition = "2021"
publish = false

[dependencies]
itoa = "1"
metrics = "0.24"
ryu = "1"
