[package]
name = "bundler"
version = "0.1.0"
edition = "2021"
publish = false

[dependencies]
ast_node = "=0.7.3"
from_variant = "=0.1.3"
scoped-tls = "=1.0.0"
serde = "=1.0.219"
serde_json = "=1.0.140"
string_enum = "=0.3.1"
swc_babel_ast = "=0.1.0"
swc_ecma_ast = "=0.49.5"
swc_macros_common = "=0.3.3"
