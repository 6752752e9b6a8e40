[package]
name = "vertov"
version = "0.1.0"
edition = "2021"
publish = false

[dependencies]
crossterm = "=0.29.0"
lexopt = "=0.3.2"
libc = "=0.2.191"
malevich = { version = "=1.25.0", features = ["pixel", "ratatui"] }
ratatui = "=0.30.2"
