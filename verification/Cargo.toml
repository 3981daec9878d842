[package]
name = "playthrough_hinter"
version = "0.1.0"
edition = "2021"
publish = false

[dependencies]
rand = "=0.9.5"
archipelago_rs = "=3.0.1"
directories = "=6.0.0"
getopts = "=0.2.24"
