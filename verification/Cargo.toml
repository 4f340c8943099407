[package]
name = "miri_machine"
version = "0.1.0"
edition = "2021"
publish = false

[dependencies]
measureme = "=10.1.3"
rand = "=0.8.8"
rustc_data_structures = "=0.1.2"
