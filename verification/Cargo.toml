[package]
name = "four_in_a_row"
version = "0.1.0"
edition = "2021"
publish = false

[dependencies]
cpu-time = "1"
num-integer = "0.1"
rand = "0.8"
rand_chacha = "0.3"
rulinalg = "0.4"
strum = "0.24"
strum_macros = "0.24"
