[package]
name = "lsm_vec"
version = "0.1.0"
edition = "2021"
publish = false

[dependencies]
bitvec = "1"
bytes = "1"
parking_lot = "0.12"
rand = "0.9"
rand_distr = "0.5"
slatedb = { version = "*", default-features = false }
thiserror = "2"
