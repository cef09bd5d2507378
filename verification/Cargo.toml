[package]
name = "raftstore_snap"
version = "0.1.0"
edition = "2021"
publish = false

[dependencies]
crc32fast = "1"
regex = "1"
protobuf = "2"
raft = "0.7"
openssl = "0.10"
thiserror = "1"
lazy_static = "1"
futures = "0.3"
tempfile = "3"
chrono = "0.4"
pprof = { version = "0.11", default-features = false, features = ["flamegraph", "protobuf-codec"] }
