[package]
name = "advent_of_code"
version = "0.1.0"
edition = "2021"
publish = false
