[package]
name = "html_str"
version = "0.1.0"
edition = "2021"
publish = false

[dependencies]
app_units = "*"
cssparser = "0.29"
euclid = "*"
libc = "*"
num = "*"
