[package]
name = "autowired"
version = "0.1.0"
edition = "2021"
publish = false

[dependencies]
async-trait = "0.1"
const_format = "0.2"
darling = "0.20"
frunk = "0.4"
impls = "1"
inventory = "0.3"
proc-macro2 = "1"
quote = "1"
syn = { version = "2", features = ["full"] }
uuid = { version = "1", features = ["v4"] }
