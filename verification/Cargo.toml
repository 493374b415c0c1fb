[package]
name = "hoi4_build_core"
version = "0.1.0"
edition = "2021"
publish = false

[dependencies]
orx-priority-queue = "=1.7.0"
rapidhash = "*"
smallvec = "1"
pyo3 = "0.27"
