[package]
name = "station_stats"
version = "0.1.0"
edition = "2021"
publish = false

[dependencies]
memmap2 = "0.9"
rustc-hash = "2"
