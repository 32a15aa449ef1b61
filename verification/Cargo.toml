[package]
name = "flow_parser"
version = "0.1.0"
edition = "2021"
publish = false

[dependencies]
string-interner = "=0.20.0"
chumsky = "=0.13.0"
ariadne = "=0.6.0"
clap = { version = "=4.6.7", features = ["derive"] }
