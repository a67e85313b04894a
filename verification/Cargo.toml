[package]
name = "era_journal"
version = "0.1.0"
edition = "2021"
publish = false

[dependencies]
hex-slice = "0.1"
memmap = "0.5"
tiny-keccak = "1"
