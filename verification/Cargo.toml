[package]
name = "parallel_labs"
version = "0.1.0"
edition = "2021"
publish = false

[dependencies]
rand = "0.8"
thiserror = "1"
mpi = "0.8"
memoffset = "0.9"
