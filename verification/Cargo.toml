[package]
name = "dms_agent"
version = "0.1.0"
edition = "2021"
publish = false

[dependencies]
chrono = "*"
chan = "*"
chan-signal = "*"
clap = "*"
log = "*"
env_logger = "*"
nanomsg = "*"
url = "*"
