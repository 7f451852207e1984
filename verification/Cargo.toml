[package]
name = "wasymex"
version = "0.1.0"
edition = "2021"
publish = false

[dependencies]
clap = { version = "4", features = ["derive"] }
colored = "2"
dyn-clone = "1"
fern = { version = "0.6", features = ["colored"] }
log = "0.4"
walrus = "0.20"
z3 = "0.12"
