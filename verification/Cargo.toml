[package]
name = "led_patterns"
version = "0.1.0"
edition = "2021"
publish = false

[dependencies]
rand = "0.7"
rs_ws281x = "*"
log = "0.4"
simple_logger = "*"
