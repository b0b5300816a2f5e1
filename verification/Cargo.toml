[package]
name = "stratodb"
version = "0.1.0"
edition = "2021"
publish = false

[dependencies]
chrono = "0.4"
uuid = { version = "1", features = ["v4", "v7"] }
lru = "*"
redb = "*"
rkyv = "*"
num-bigint = "0.4"
num-rational = "0.4"
num-bigfloat = "*"
thiserror = "*"
