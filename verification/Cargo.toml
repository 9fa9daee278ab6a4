[package]
name = "oneloopreduce"
version = "0.1.0"
edition = "2021"
publish = false

[dependencies]
symbolica = { version = "=2.2.0", default-features = false, features = ["no_gmp", "python_export"] }
thiserror = "=2.0.21"
pyo3 = "0.28"
