[package]
name = "hydropkg"
version = "0.1.0"
edition = "2021"
publish = false

[dependencies]
select = "*"
zstd = "*"
reqwest = { version = "*", default-features = false }
tokio = { version = "*", features = ["macros", "rt-multi-thread"] }
clap = "*"
dirs = "*"
