[package]
name = "olus"
version = "0.1.0"
edition = "2021"
publish = false

[dependencies]
bitvec = "1"
pathfinding = "*"
dynasm = "*"
dynasmrt = "*"
logos = "0.12"
codespan-reporting = "0.11"
structopt = "0.3"
stderrlog = "0.5"
