[package]
name = "luna_model"
version = "0.1.0"
edition = "2021"
publish = false

[dependencies]
hashbrown = "*"
indexmap = "*"
itertools = "*"
global_counter = "*"
num = "*"
enumset = "*"
strum_macros = "*"
derive_more = { version = "*", features = ["deref", "deref_mut"] }
parking_lot = "*"
pyo3 = "*"
