[package]
name = "wifi_scanner"
version = "0.1.0"
edition = "2021"
publish = false

[dependencies]
wifi_scan = "*"
egui = "0.34"
egui_plot = "0.35"
