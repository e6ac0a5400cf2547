[package]
name = "xfx"
version = "0.1.0"
edition = "2021"
publish = false

[dependencies]
futures-util = "0.3"
libc = "0.2"
rustix = { version = "1", features = ["event", "fs", "pipe", "process", "pty", "stdio", "termios"] }
tokio = { version = "1", features = ["macros", "rt", "sync", "time"] }
unicode-segmentation = "1"
unicode-width = "0.2"
