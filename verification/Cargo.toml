[package]
name = "ll1_parser"
version = "0.1.0"
edition = "2021"

[dependencies]
regex = "1"
prettytable-rs = "0.10"
structopt = "0.3"
