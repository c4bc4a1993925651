[package]
name = "sc-network"
version = "0.8.0"
edition = "2021"
publish = false

[dependencies]
cuckoofilter = "=0.5.0"
lru = "=0.6.6"
hex = "=0.4.3"
rand = "=0.7.3"
bs58 = "=0.3.1"
libp2p = { version = "=0.29.1", default-features = false }
futures = "=0.3.34"
futures-timer = "=3.0.4"
wasm-timer = "=0.2.5"
void = "=1.0.2"
log = "=0.4.35"
fnv = "=1.0.7"
smallvec = "=1.16.4"

[dev-dependencies]
parity-scale-codec = "=1.3.7"
