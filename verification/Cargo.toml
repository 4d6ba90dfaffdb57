[package]
name = "sudoku_solver_and_generator"
version = "0.1.0"
edition = "2021"
publish = false

[dependencies]
rand = "0.8"
regex = "1"
relm4 = "*"
serde = { version = "1", features = ["derive"] }
serde_json = "1"
