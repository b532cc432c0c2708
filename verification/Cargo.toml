[package]
name = "bitcoinmw"
version = "0.1.0"
edition = "2021"
publish = false

[dependencies]
sha3 = "=0.10.9"
sha1 = "0.10"
aes = "=0.8.4"
ctr = "=0.9.2"
getrandom = "=0.2.17"
grin_secp256k1zkp = "=0.7.15"
