[package]
name = "ic_vectune"
version = "0.1.0"
edition = "2021"
publish = false

[dependencies]
ic-stable-structures = "0.6"
bitvec = { version = "1", features = ["serde"] }
bincode = "1"
url = "2"
serde = { version = "1", features = ["derive"] }
serde_json = "1"
candid = "0.10"
ic-cdk = "0.13"
ic-cdk-timers = "0.7"
vectune = "0.1"
clap = { version = "4", features = ["derive"] }
tokio = { version = "1", features = ["full"] }
anyhow = "1"
futures = "0.3"
ic-agent = "0.37"
memmap2 = "0.9"
dirs = "5"
bytesize = "1"
rand = "0.8"
getrandom = { version = "0.2", features = ["custom"] }
num-traits = "0.2"
base64 = "0.22"
bytemuck = "1"
