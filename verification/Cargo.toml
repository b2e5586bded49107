[package]
name = "zk_data_quality"
version = "0.1.0"
edition = "2021"
publish = false

[dependencies]
ark-bn254 = "0.5"
ark-ff = "0.5"
ark-grumpkin = "0.5"
ark-r1cs-std = "0.5"
ark-relations = "0.5"
ark-std = "0.5"
rand = "0.8"
