[package]
name = "bath"
version = "0.1.0"
edition = "2021"
publish = false

[dependencies]
hound = "=3.5.1"
midly = "=0.5.3"
rustysynth = "=1.3.8"
terminal_size = "0.4"
