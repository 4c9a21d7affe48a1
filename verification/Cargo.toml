[package]
name = "gzcsv_filter"
version = "0.1.0"
edition = "2021"
publish = false

[dependencies]
clap = { version = "4", features = ["derive"] }
crossbeam-channel = "0.5"
flate2 = "1"
rayon = "1"
tikv-jemallocator = "0.6"
