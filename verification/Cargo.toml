[package]
name = "hibp_check"
version = "0.1.0"
edition = "2021"
publish = false

[dependencies]
anyhow = "1"
clap = { version = "4", features = ["derive"] }
futures = "0.3"
indicatif = "*"
itertools = "*"
kdbx4 = "*"
reqwest = { version = "*", default-features = false }
rpassword = "*"
sha1 = "0.10"
tokio = { version = "1", features = ["macros", "rt-multi-thread"] }
