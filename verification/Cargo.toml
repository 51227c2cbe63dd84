[package]
name = "influent"
version = "0.6.0"
edition = "2021"
publish = false

[dependencies]
async-trait = "*"
dotenv = "*"
lazy_static = "*"
reqwest = { version = "*", default-features = false }
url = "*"
