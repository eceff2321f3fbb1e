[package]
name = "asb"
version = "0.1.0"
edition = "2021"
publish = false

[dependencies]
smallvec = "=1.16.4"
crc64fast = "=1.1.0"
keccak-hash = "=0.10.0"
blake2 = "=0.10.6"
structopt = "=0.3.26"
postcard = { version = "=1.1.3", features = ["alloc"] }
serde = { version = "=1.0.229", features = ["derive"] }
rand = "=0.7.3"
rand_pcg = "=0.2.1"
log = "=0.4.35"
log4rs = "=1.4.0"
kvdb = "=0.13.0"
