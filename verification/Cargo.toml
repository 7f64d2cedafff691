[package]
name = "servefs"
version = "0.1.0"
edition = "2021"
publish = false

[dependencies]
rand = "0.8"
sqlx = { version = "0.7", default-features = false, features = ["runtime-tokio", "sqlite"] }
tokio = { version = "1", default-features = false, features = ["rt-multi-thread", "macros", "process", "time", "io-util"] }
clap = { version = "4", default-features = false, features = ["derive", "std", "help"] }
rocket = "0.5"
dirs = "5"
fuser = { version = "0.14", default-features = false }
libc = "0.2"
