[package]
name = "branch_actions"
version = "0.1.0"
edition = "2021"
publish = false

[dependencies]
anyhow = "1"
bstr = "1"
git2 = { version = "*", default-features = false }
itertools = "*"
