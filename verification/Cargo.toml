[package]
name = "sudoku"
version = "0.1.0"
edition = "2021"

[dependencies]
itertools = "0.10"
