[package]
name = "rooms_and_lifts"
version = "0.1.0"
edition = "2021"
publish = false

[dependencies]
mpi = "*"
ctrlc = "*"
ansi_term = "*"
rand = "*"
