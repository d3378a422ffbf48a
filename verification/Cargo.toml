[package]
name = "mysqldump_quick_xml"
version = "0.1.0"
edition = "2021"
publish = false

[dependencies]
quick-xml = "0.22"
proc-macro2 = "1"
quote = "1"
syn = "1"
