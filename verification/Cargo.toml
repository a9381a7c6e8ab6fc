[package]
name = "raft"
version = "0.1.0"
edition = "2021"
publish = false

[dependencies]
rand = "=0.7.3"
futures = "=0.3.34"
log = "=0.4.35"
prost = "0.6"
