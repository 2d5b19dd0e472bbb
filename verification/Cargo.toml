[package]
name = "bujo"
version = "0.1.0"
edition = "2021"
publish = false

[dependencies]
ansi_term = "0.12"
chrono = "0.4"
clap = "2"
crossterm = "0.25"
home = "0.5"
serde = "1"
serde_derive = "1"
serde_json = "1"
terminal_size = "0.1"
tui = "0.19"
