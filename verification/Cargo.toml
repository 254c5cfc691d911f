[package]
name = "rusty_sorter"
version = "0.1.0"
edition = "2021"
publish = false

[dependencies]
argparse = "0.2"
walkdir = "2"
