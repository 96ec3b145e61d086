[package]
name = "headset_screenshots"
version = "0.1.0"
edition = "2021"
publish = false

[dependencies]
anyhow = "1"
chrono = "0.4"
dirs = "6"
jni = "0.22"
log = "0.4"
parking_lot = "0.12"
