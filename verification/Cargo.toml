[package]
name = "puzzle_kit"
version = "0.1.0"
edition = "2021"
publish = false

[dependencies]
array_tool = "*"
