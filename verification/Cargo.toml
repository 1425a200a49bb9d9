[package]
name = "mpc"
version = "0.1.0"
edition = "2021"
publish = false

[dependencies]
rand = "0.8"
num = "0.4"
log = "0.4"
env_logger = "0.10"
itertools = "0.10"
druid = "0.8"
