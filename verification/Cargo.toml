[package]
name = "plotonomicon"
version = "0.1.0"
edition = "2021"
publish = false

[dependencies]
rand = "0.8"
smallvec = "1"
itertools = "*"
xvii = "*"
clap = "2"
log = "0.4"
env_logger = "*"
