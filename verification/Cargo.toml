[package]
name = "hl7_lsp"
version = "0.1.0"
edition = "2021"
publish = false

[dependencies]
tokio = { version = "=1.54.1", features = ["io-std", "macros", "rt-multi-thread", "sync"] }
tower-lsp-server = "=0.22.1"
tree-sitter = "=0.25.10"

[dev-dependencies]
tree-sitter-json = "0.24"
