[package]
name = "zk_ledger"
version = "0.1.0"
edition = "2021"
publish = false

[dependencies]
sha2 = "=0.10.9"
bellman = "=0.14.0"
bls12_381 = "=0.8.0"
groth16 = "=0.1.0"
pairing = "=0.23.0"
rand = "=0.8.8"
serde = { version = "=1.0.229", features = ["derive"] }
serde_json = "=1.0.151"
borsh = { version = "=1.8.1", features = ["derive"] }
lazy_static = "=1.5.1"
solana-program = "=5.1.0"
merkletree = "=0.23.0"
