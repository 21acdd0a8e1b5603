[package]
name = "restricted_exec"
version = "0.1.0"
edition = "2021"
publish = false

[dependencies]
anyhow = "1"
clap = { version = "4", features = ["derive"] }
goblin = "*"
landlock = "*"
libc = "0.2"
libseccomp = "*"
tracing = "0.1"
tracing-subscriber = { version = "0.3", features = ["env-filter"] }
