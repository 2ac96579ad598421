[package]
name = "skyscrapper"
version = "0.1.0"
edition = "2021"
publish = false

[dependencies]
rand = "0.8"
rand_xoshiro = "0.6"
clap = { version = "4", features = ["derive"] }
ctrlc = "3"
termcolor = "1"
atty = "0.2"
