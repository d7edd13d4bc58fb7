[package]
name = "sudoku_minlex"
version = "0.1.0"
edition = "2021"
publish = false

[dependencies]
itertools = "*"
pyo3 = "*"
