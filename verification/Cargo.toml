[package]
name = "tw_migrate"
version = "0.1.0"
edition = "2021"
publish = false

[dependencies]
oxc_allocator = "=0.143.0"
oxc_ast = { version = "=0.143.0", features = ["serialize"] }
oxc_ast_visit = "=0.143.0"
oxc_estree = { version = "=0.143.0", features = ["serialize"] }
oxc_parser = "=0.143.0"
oxc_semantic = "=0.143.0"
oxc_sourcemap = "=9.0.0"
oxc_span = "=0.143.0"
oxc_syntax = "=0.143.0"
serde = { version = "=1.0.229", features = ["derive"] }
serde_json = { version = "=1.0.154", features = ["float_roundtrip"] }
toml = "=1.1.8"
