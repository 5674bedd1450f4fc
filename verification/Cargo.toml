[package]
name = "regex_circuit"
version = "0.1.0"
edition = "2021"
publish = false

[dependencies]
regex = "1"
regex-automata = "0.4"
ark-bn254 = "0.4"
ark-ff = "0.4"
ark-groth16 = "0.4"
ark-r1cs-std = "0.4"
ark-relations = "0.4"
ark-snark = "0.4"
rand = "0.8"
