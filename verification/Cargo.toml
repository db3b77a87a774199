[package]
name = "bevyinit"
version = "0.1.0"
edition = "2021"
publish = false

[dependencies]
clap = "*"
console = "*"
ctrlc = "*"
dialoguer = "*"
reqwest = { version = "*", default-features = false }
tokio = { version = "*", features = ["macros", "rt-multi-thread"] }
