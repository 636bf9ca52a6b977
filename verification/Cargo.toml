[package]
name = "classic_computer_science_problems"
version = "0.1.0"
edition = "2021"
publish = false

[dependencies]
bitvec = "1"
console = "*"
nom = "7"
ordered-float = "*"
rand = "0.8"
