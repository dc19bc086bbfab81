[package]
name = "tagid"
version = "0.1.0"
edition = "2021"
publish = false

[dependencies]
cuid2 = "*"
rand = "*"
rs-snowflake = "*"
ulid = "*"
uuid = { version = "*", features = ["v4"] }
