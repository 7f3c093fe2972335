[package]
name = "luabster"
version = "0.1.0"
edition = "2021"
publish = false

[dependencies]
home = "0.5"
shellexpand = "3"
colored = "2"
crossterm = "0.26"
rlua = "0.19"
hostname = "0.3"
strsim = "*"
itertools = "*"
