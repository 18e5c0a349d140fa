[package]
name = "photo_organizer"
version = "0.1.0"
edition = "2021"
publish = false

[dependencies]
anyhow = "=1.0.104"
chrono = "=0.4.45"
clap = "=3.2.25"
minidom = "=0.14.0"
rayon = "=1.12.0"
regex = "=1.13.1"
rexiv2 = "=0.10.0"
