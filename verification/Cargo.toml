[package]
name = "codegraph"
version = "0.1.0"
edition = "2021"
publish = false

[dependencies]
petgraph = "=0.8.3"
tree-sitter = "=0.27.1"
tree-sitter-rust = "=0.24.2"
tree-sitter-python = "=0.25.0"
tree-sitter-javascript = "=0.25.0"
tree-sitter-typescript = "=0.23.2"
tree-sitter-go = "=0.25.0"
tree-sitter-swift = "=0.7.4"
tree-sitter-java = "=0.23.5"
tree-sitter-c = "=0.24.2"
tree-sitter-cpp = "=0.23.4"
tree-sitter-ruby = "=0.23.1"
tree-sitter-c-sharp = "=0.23.5"
tree-sitter-kotlin-ng = "=1.1.0"
tree-sitter-bash = "=0.25.1"
scip = "=0.10.0"
protobuf = "=3.7.2"
sha2 = "=0.11.1"
serde = { version = "=1.0.229", features = ["derive"] }
serde_json = "=1.0.154"
anyhow = "=1.0.104"
clap = { version = "=4.6.7", features = ["derive"] }
rusqlite = { version = "=0.41.1", features = ["bundled", "functions"] }
ignore = "=0.4.34"
regex = "=1.13.1"
tokio = { version = "=1.54.1", features = ["rt-multi-thread", "macros", "io-std"] }
rmcp = { version = "=3.8.0", features = ["server", "transport-io", "macros"] }
html2text = { version = "*", default-features = false }
pdf-extract = "*"
reqwest = { version = "*", default-features = false, features = ["blocking", "rustls-tls"] }
