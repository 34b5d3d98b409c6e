[package]
name = "mini_kernel"
version = "0.1.0"
edition = "2021"

[dependencies]
spin = "0.9"
memmap = "0.7"
crossterm = "0.25"
tui = "0.19"
