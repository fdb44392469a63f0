[package]
name = "crate_selection"
version = "0.1.0"
edition = "2021"
publish = false

[dependencies]
anyhow = "1"
bstr = "=1.13.1"
fancy-regex = "=0.20.0"
git2 = { version = "=0.21.0", default-features = false }
linked-hash-map = "=0.5.6"
linked_hash_set = "=0.1.6"
log = "0.4"
semver = "=1.0.28"
