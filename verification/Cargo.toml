[package]
name = "concentra"
version = "0.1.0"
edition = "2021"
publish = false

[dependencies]
bstr = "=1.13.1"
itertools = "=0.15.0"
calamine = "=0.37.0"
clap = { version = "=4.6.7", features = ["derive"] }
rfd = { version = "=0.17.2", default-features = false, features = ["xdg-portal"] }
rust_xlsxwriter = "=0.101.0"
walkdir = "=2.5.0"
