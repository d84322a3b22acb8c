[package]
name = "lox_rs_ast"
version = "0.1.0"
edition = "2021"
publish = false

[dependencies]
chrono = "0.4"
clap = { version = "4", features = ["derive"] }
clap-verbosity-flag = "*"
log = "0.4"
rustyline = "*"
simplelog = "0.12"
thiserror = "*"
