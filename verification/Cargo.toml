[package]
name = "beancount_references"
version = "0.1.0"
edition = "2021"
publish = false

[dependencies]
anyhow = "=1.0.104"
gen-lsp-types = { version = "=0.11.0", features = ["url"] }
ropey = "=1.6.1"
tracing = "=0.1.44"
tree-sitter-beancount = "=2.5.1"
