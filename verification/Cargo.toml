[package]
name = "ltl_forge"
version = "0.1.0"
edition = "2021"
publish = false

[dependencies]
rustc-hash = "2"
roxmltree = "*"
clap = { version = "4", features = ["derive"] }
colored = "*"
open = "*"
