[package]
name = "mfat32"
version = "0.1.0"
edition = "2021"
publish = false

[dependencies]
fatfs = "0.3"
fscommon = "0.1"
