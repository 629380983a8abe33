[package]
name = "fusion"
version = "0.1.0"
edition = "2021"
publish = false

[dependencies]
bnum = "=0.13.0"
bytemuck = "1"

[dev-dependencies]
bincode = "=1.3.3"
solana-pubkey = "=4.4.0"
solana-stake-interface = { version = "=5.1.1", features = ["bincode"] }
solana-vote-interface = { version = "=7.3.0", features = ["bincode"] }
