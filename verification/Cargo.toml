[package]
name = "timings"
version = "0.1.0"
edition = "2021"

[dependencies]
core_affinity = "0.5"
flume = "0.10"
parking_lot = "0.12"
tabled = "0.8"
