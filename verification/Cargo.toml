[package]
name = "open-media-transport"
version = "0.1.0"
edition = "2021"
publish = false

[dependencies]
roxmltree = "*"
hostname = "*"
mdns-sd = "*"
flume = "*"
socket2 = "*"
png = "*"
