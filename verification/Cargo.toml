[package]
name = "brainfrick"
version = "1.0.0"
edition = "2021"
publish = false

[dependencies]
clap = { version = "3.2", features = ["derive"] }
getch = "*"
