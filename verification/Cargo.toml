[package]
name = "vcf_parser"
version = "0.2.4"
edition = "2021"
publish = false

[dependencies]
anstyle = "*"
anyhow = "*"
calm_io = "*"
clap = { version = "*", features = ["derive"] }
flate2 = "*"
rayon = "*"
serde = { version = "*", features = ["derive"] }
serde_json = "*"
serde_yaml = "*"
thiserror = "*"
vcf = "*"
