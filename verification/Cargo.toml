[package]
name = "erdtree"
version = "0.1.0"
edition = "2021"
publish = false

[dependencies]
clap = { version = "4", features = ["derive"] }
clap_complete = "4"
ignore = "0.4"
indextree = "4.6"
