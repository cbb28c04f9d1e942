[package]
name = "nox_hax"
version = "0.1.0"
edition = "2021"
publish = false

[dependencies]
widestring = "*"
argh = "0.1"
log = "0.4"
simple_logger = "*"
lazy_static = "1"
winapi = { version = "0.3", features = ["consoleapi", "wincon", "minwindef", "winnt"] }
