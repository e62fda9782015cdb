[package]
name = "dovi_meta"
version = "0.1.0"
edition = "2021"
publish = false

[dependencies]
anyhow = "1"
bitvec_helpers = { version = "*", default-features = false, features = ["bitstream-io"] }
clap = { version = "4", features = ["derive"] }
hdr10plus = { version = "*", features = ["json"] }
madvr_parse = "*"
serde = { version = "1", features = ["derive"] }
serde_json = "1"
