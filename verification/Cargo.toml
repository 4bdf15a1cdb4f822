[package]
name = "ib-matcher"
version = "0.1.0"
edition = "2021"
publish = false

[dependencies]
aho-corasick = "1"
bstr = "1"
daachorse = "1"
memchr = "2"
regex-automata = "0.4"
regex-syntax = "0.8"
