[package]
name = "ya_advent_lib"
version = "0.1.0"
edition = "2021"
publish = false

[dependencies]
crossterm = "0.27"
itertools = "0.12"
ratatui = "0.24"
regex = "1"
tui-input = "0.8"
