[package]
name = "bashman"
version = "0.1.0"
edition = "2021"
publish = false

[dependencies]
adbyss_psl = "=0.24.7"
argyle = "=0.16.0"
libdeflater = "*"
oxford_join = "=0.8.0"
semver = "=1.0.28"
serde = { version = "=1.0.229", features = ["derive"] }
serde_json = "=1.0.154"
trimothy = "=0.10.0"
url = "=2.5.8"
utc2k = "=0.21.1"
write_atomic = "=0.9.0"
