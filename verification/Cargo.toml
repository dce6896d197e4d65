[package]
name = "grahh_db"
version = "0.1.0"
edition = "2021"
publish = false

[dependencies]
chrono = { version = "0.4", default-features = false, features = ["now"] }
rancor = "0.1"
rkyv = "0.8"
thiserror = "2"
