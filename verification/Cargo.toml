[package]
name = "card_ledger"
version = "0.1.0"
edition = "2021"
publish = false

[dependencies]
chrono = "0.4"
colored = "*"
comfy-table = "*"
dialoguer = { version = "*", features = ["fuzzy-select"] }
format_num = "*"
indextree = "*"
num-format = "*"
open = "*"
parsidate = "*"
rusqlite = { version = "*", features = ["bundled"] }
rust_xlsxwriter = "*"
serde = { version = "*", features = ["derive"] }
serde_json = "*"
tempfile = "*"
tokio = { version = "1", features = ["macros", "rt-multi-thread"] }
