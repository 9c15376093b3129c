[package]
name = "zed_parts"
version = "0.1.0"
edition = "2021"
publish = false

[dependencies]
anyhow = "1"
async-tungstenite = { version = "*", features = ["handshake"] }
clap = { version = "4", features = ["derive"] }
futures = "0.3"
image = { version = "0.25", default-features = false, features = ["png"] }
log = "0.4"
ordered-float = "*"
priority-queue = "2"
resvg = { version = "*", default-features = false }
schemars = "1"
serde = { version = "1", features = ["derive"] }
serde_json = "1"
smallvec = "1"
smol = "2"
strum = { version = "*", features = ["derive"] }
tiny-skia = "*"
tree-sitter = "0.25"
tree-sitter-c = "*"
tree-sitter-cpp = "*"
tree-sitter-css = "*"
tree-sitter-go = "*"
tree-sitter-json = "*"
tree-sitter-python = "*"
tree-sitter-rust = "*"
tree-sitter-typescript = "*"
tree-sitter-yaml = "*"
url = "2"
usvg = "*"
