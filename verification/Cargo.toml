[package]
name = "thouart"
version = "0.1.0"
edition = "2021"
publish = false

[dependencies]
futures = "0.3"
libc = "0.2"
regex = "1"
terminfo = "0.8"
thiserror = "1"
tokio = { version = "1", features = ["io-std", "io-util", "macros", "rt", "rt-multi-thread", "signal", "sync", "time"] }
tokio-tungstenite = "0.20"
winapi = { version = "0.3", features = ["consoleapi", "minwindef", "wincon", "winnt"] }
